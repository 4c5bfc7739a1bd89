//! E-AC-3 audio-block bit-walker. It does not reconstruct audio: it tracks the bit position through
//! each audio block, to locate the per-block skip field, the place where streams carry the EMDF.
//!
//! It covers one configuration: independent E-AC-3, 5.1 (acmod 7 + LFE), 6 blocks, 48 kHz, no coupling,
//! no spectral extension, no adaptive hybrid transform, no delta bit allocation, frame-level exponent
//! strategy and SNR offsets, fixed bit allocation parameters. The walk yields nothing for a frame that
//! uses anything outside that subset.

use crate::alloc_tables;
use crate::alloc_tables::{
    bap_entry, bits_entry, bnd_entry, frm_entry, hth_entry, la_entry, mask_entry,
};
use crate::bits;
use crate::bits::BitReader;
use crate::bsi;
use crate::bsi::skip_opt;
use crate::eac3::FrameInfo;
use vstd::prelude::*;

verus! {


/// Full-bandwidth channels for acmod 7.
pub const NCH: usize = 5;

/// Fast gain (code 4).
pub const FGAIN: i32 = 0x280;

/// Slow gain (code 1).
pub const SGAIN: i32 = 0x4d8;

/// Fast decay (code 1).
pub const FDECAY: i32 = 0x53;

/// Slow decay (code 2).
pub const SDECAY: i32 = 0x13;

/// Decibel knee (code 2).
pub const DBKNEE: i32 = 0x900;

/// Depth of the masking floor below zero (code 7).
pub const FLOOR: i32 = 2048;

// ------------------------------------------------------------------ exponents and spectral levels

pub open spec fn larger(a: int, b: int) -> int {
    if a >= b {
        a
    } else {
        b
    }
}

/// The sum of two levels on the logarithmic scale.
pub open spec fn level_sum(a: int, b: int) -> int {
    let d = larger(a, b) - (if a >= b {
        b
    } else {
        a
    });
    larger(a, b) + alloc_tables::latab(if d / 2 <= 255 {
        d / 2
    } else {
        255
    })
}

fn log_add(a: i32, b: i32) -> (r: i32)
    requires
        -200000 <= a <= 200000,
        -200000 <= b <= 200000,
    ensures
        r == level_sum(a as int, b as int),
        larger(a as int, b as int) <= r <= larger(a as int, b as int) + 255,
{
    let (hi, lo) = if a >= b {
        (a, b)
    } else {
        (b, a)
    };
    let half = ((hi - lo) / 2) as usize;
    let address: usize = if half <= 255 {
        half
    } else {
        255
    };
    hi + la_entry(address)
}

/// The low frequency compensation of bin `bin`, from that of the bin before it.
pub open spec fn next_lowcomp(a: int, b0: int, b1: int, bin: int) -> int {
    if bin < 7 {
        if b0 + 256 == b1 {
            384
        } else if b0 > b1 {
            larger(a - 64, 0)
        } else {
            a
        }
    } else if bin < 20 {
        if b0 + 256 == b1 {
            320
        } else if b0 > b1 {
            larger(a - 64, 0)
        } else {
            a
        }
    } else {
        larger(a - 128, 0)
    }
}

fn calc_lowcomp(a: i32, b0: i32, b1: i32, bin: usize) -> (r: i32)
    requires
        0 <= a <= 384,
        -200000 <= b0 <= 200000,
        -200000 <= b1 <= 200000,
    ensures
        r == next_lowcomp(a as int, b0 as int, b1 as int, bin as int),
        0 <= r <= 384,
{
    if bin < 7 {
        if b0 + 256 == b1 {
            384
        } else if b0 > b1 {
            if a >= 64 {
                a - 64
            } else {
                0
            }
        } else {
            a
        }
    } else if bin < 20 {
        if b0 + 256 == b1 {
            320
        } else if b0 > b1 {
            if a >= 64 {
                a - 64
            } else {
                0
            }
        } else {
            a
        }
    } else {
        if a >= 128 {
            a - 128
        } else {
            0
        }
    }
}

/// The `m`-th exponent difference that the group codes spell out, three to a code.
pub open spec fn exp_diff(codes: Seq<u8>, m: int) -> int {
    let c = codes[m / 3] as int;
    if m % 3 == 0 {
        c / 25 - 2
    } else if m % 3 == 1 {
        (c % 25) / 5 - 2
    } else {
        c % 5 - 2
    }
}

/// The absolute exponent after `m` differences.
pub open spec fn abs_exp(first: int, codes: Seq<u8>, m: nat) -> int
    decreases m,
{
    if m == 0 {
        first
    } else {
        abs_exp(first, codes, (m - 1) as nat) + exp_diff(codes, m - 1)
    }
}

/// The exponent of bin `i`, when each difference stands for `grp` bins.
pub open spec fn exponent(first: int, codes: Seq<u8>, grp: nat, i: int) -> int {
    if i <= 0 {
        first
    } else {
        abs_exp(first, codes, ((i - 1) / grp as int + 1) as nat)
    }
}

/// The power spectral density of each bin.
pub open spec fn psd_of(first: int, codes: Seq<u8>, grp: nat) -> Seq<i32> {
    Seq::new(
        1 + 3 * grp * codes.len(),
        |i: int| (3072 - 128 * exponent(first, codes, grp, i)) as i32,
    )
}

/// Levels that keep all sums in range.
pub open spec fn levels_ok(psd: Seq<i32>) -> bool {
    forall|i: int| 0 <= i < psd.len() ==> -110000 <= #[trigger] psd[i] <= 110000
}

/// Bins that one exponent difference stands for, by strategy.
pub open spec fn group_size(strat: int) -> nat {
    if strat == 3 {
        4
    } else {
        strat as nat
    }
}

proof fn lemma_abs_exp_bound(first: int, codes: Seq<u8>, m: nat)
    requires
        0 <= first < 16,
        forall|i: int| 0 <= i < codes.len() ==> #[trigger] codes[i] < 128,
        m <= 3 * codes.len(),
    ensures
        -2 * m <= abs_exp(first, codes, m) <= 15 + 3 * m,
    decreases m,
{
    if m > 0 {
        lemma_abs_exp_bound(first, codes, (m - 1) as nat);
        assert(codes[(m - 1) / 3] < 128);
    }
}

/// Ungroup and differentially decode exponents into the power spectral density of their bins.
fn ungroup_exponents(absexp0: i32, grouped: &Vec<u8>, strat: u8) -> (psd: Vec<i32>)
    requires
        0 <= absexp0 < 16,
        1 <= strat <= 3,
        grouped@.len() <= 84,
        forall|i: int| 0 <= i < grouped@.len() ==> #[trigger] grouped@[i] < 128,
    ensures
        psd@ == psd_of(absexp0 as int, grouped@, group_size(strat as int)),
        levels_ok(psd@),
{
    let grpsize: usize = if strat != 3 {
        strat as usize
    } else {
        4
    };
    let ghost g = group_size(strat as int);
    let ghost first = absexp0 as int;
    let mut psd: Vec<i32> = Vec::new();
    psd.push(3072 - 128 * absexp0);
    let mut absexp: i32 = absexp0;
    let count: usize = 3 * grouped.len();
    let mut m: usize = 0;
    while m < count
        invariant
            m <= count,
            count == 3 * grouped@.len(),
            grouped@.len() <= 84,
            0 <= first < 16,
            forall|i: int| 0 <= i < grouped@.len() ==> #[trigger] grouped@[i] < 128,
            absexp == abs_exp(first, grouped@, m as nat),
            1 <= g <= 4,
            grpsize == g,
            psd@.len() == 1 + g * m,
            forall|i: int|
                0 <= i < psd@.len() ==> #[trigger] psd@[i] == 3072 - 128 * exponent(
                    first,
                    grouped@,
                    g,
                    i,
                ),
            levels_ok(psd@),
        decreases count - m,
    {
        let c = grouped[m / 3];
        let d: i32 = if m % 3 == 0 {
            (c / 25) as i32 - 2
        } else if m % 3 == 1 {
            ((c % 25) / 5) as i32 - 2
        } else {
            (c % 5) as i32 - 2
        };
        proof {
            lemma_abs_exp_bound(first, grouped@, m as nat);
            lemma_abs_exp_bound(first, grouped@, (m + 1) as nat);
        }
        absexp = absexp + d;
        m = m + 1;
        let mut k: usize = 0;
        while k < grpsize
            invariant
                k <= grpsize,
                grpsize == g,
                1 <= g <= 4,
                1 <= m,
                absexp == abs_exp(first, grouped@, m as nat),
                -2 * m <= absexp <= 15 + 3 * m,
                m <= 252,
                psd@.len() == 1 + g * (m - 1) + k,
                forall|i: int|
                    0 <= i < psd@.len() ==> #[trigger] psd@[i] == 3072 - 128 * exponent(
                        first,
                        grouped@,
                        g,
                        i,
                    ),
                levels_ok(psd@),
            decreases grpsize - k,
        {
            proof {
                let i = psd@.len() as int;
                assert((i - 1) / (g as int) == m - 1) by (nonlinear_arith)
                    requires
                        i - 1 == g * (m - 1) + k,
                        0 <= k < g,
                        g >= 1,
                        m >= 1,
                ;
            }
            psd.push(3072 - 128 * absexp);
            k = k + 1;
        }
        assert(g * (m - 1) + g == g * m) by (nonlinear_arith);
    }
    assert(g * (3 * grouped@.len()) == 3 * g * grouped@.len()) by (nonlinear_arith);
    assert(psd@ =~= psd_of(first, grouped@, g));
    psd
}

// ------------------------------------------------------------------ bands and masking

/// The level of the bins from `lo` up to `hi` taken together.
pub open spec fn fold_psd(psd: Seq<i32>, lo: int, hi: int) -> int
    decreases hi - lo,
{
    if hi <= lo + 1 {
        psd[lo] as int
    } else {
        level_sum(fold_psd(psd, lo, hi - 1), psd[hi - 1] as int)
    }
}

/// First bin of band `k`.
pub open spec fn band_start(k: int) -> int {
    if k <= 0 {
        0
    } else {
        alloc_tables::bndtab(k - 1)
    }
}

/// Level of band `k`, over the bins that have exponents.
pub open spec fn band_level(psd: Seq<i32>, k: int) -> int {
    fold_psd(
        psd,
        band_start(k),
        if alloc_tables::bndtab(k) <= psd.len() {
            alloc_tables::bndtab(k)
        } else {
            psd.len() as int
        },
    )
}

/// Levels of the first `n` bands.
pub open spec fn band_levels(psd: Seq<i32>, n: nat) -> Seq<i32> {
    Seq::new(n, |k: int| band_level(psd, k) as i32)
}

/// How many bands the bins below `end` reach into.
pub open spec fn band_count(end: int) -> nat {
    (alloc_tables::masktab(end - 1) + 1) as nat
}

/// The ends of channels: from the LFE channel's on.
pub open spec fn end_ok(end: int) -> bool {
    7 <= end <= 253
}

/// Level of the band behind those that the bins below `end` reach into; zero where there are no
/// exponents.
pub open spec fn next_level(psd: Seq<i32>, end: int) -> int {
    let k = band_count(end) as int;
    if k < 50 && band_start(k) < psd.len() {
        band_level(psd, k)
    } else {
        0
    }
}

/// Adds up the levels of band `k`, over the bins that have exponents.
fn integrate_band(psd: &Vec<i32>, k: usize) -> (level: i32)
    requires
        levels_ok(psd@),
        k < 50,
        band_start(k as int) < psd@.len(),
    ensures
        level == band_level(psd@, k as int),
        -130000 <= level <= 130000,
{
    let lo: usize = if k == 0 {
        0
    } else {
        bnd_entry(k - 1)
    };
    let top = bnd_entry(k);
    proof {
        alloc_tables::lemma_bands();
        alloc_tables::lemma_bands_mono(k as int, 49);
        if k > 0 {
            alloc_tables::lemma_band_width(k as int);
        }
    }
    let hi: usize = if top <= psd.len() {
        top
    } else {
        psd.len()
    };
    let mut acc: i32 = psd[lo];
    let mut i: usize = lo + 1;
    while i < hi
        invariant
            lo < i <= hi,
            hi <= psd@.len(),
            hi <= 253,
            levels_ok(psd@),
            acc == fold_psd(psd@, lo as int, i as int),
            -110000 <= acc <= 110000 + 255 * (i - lo),
        decreases hi - i,
    {
        assert(psd@[i as int] <= 110000);
        acc = log_add(acc, psd[i]);
        i = i + 1;
    }
    acc
}

fn integrate(psd: &Vec<i32>, end: usize) -> (r: (Vec<i32>, i32))
    requires
        levels_ok(psd@),
        end_ok(end as int),
        end <= psd@.len(),
    ensures
        r.0@ == band_levels(psd@, band_count(end as int)),
        r.1 == next_level(psd@, end as int),
        7 <= r.0@.len() <= 50,
        forall|k: int| 0 <= k < r.0@.len() ==> -130000 <= #[trigger] r.0@[k] <= 130000,
        -130000 <= r.1 <= 130000,
{
    proof {
        alloc_tables::lemma_masktab(6);
        alloc_tables::lemma_masktab(end - 1);
        alloc_tables::lemma_masktab_mono(6, end - 1);
        alloc_tables::lemma_bands();
    }
    let n = mask_entry(end - 1) + 1;
    let mut bp: Vec<i32> = Vec::with_capacity(n);
    let mut k: usize = 0;
    while k < n
        invariant
            k <= n,
            n == band_count(end as int),
            n <= 50,
            end_ok(end as int),
            end <= psd@.len(),
            levels_ok(psd@),
            bp@.len() == k,
            forall|j: int| 0 <= j < k ==> #[trigger] bp@[j] == band_level(psd@, j) as i32,
            forall|j: int| 0 <= j < k ==> -130000 <= #[trigger] bp@[j] <= 130000,
        decreases n - k,
    {
        proof {
            alloc_tables::lemma_masktab(end - 1);
            if k > 0 {
                alloc_tables::lemma_bands_mono(k - 1, n - 2);
            }
        }
        bp.push(integrate_band(psd, k));
        k = k + 1;
    }
    assert(bp@ =~= band_levels(psd@, n as nat));
    let next: i32 = if n < 50 && bnd_entry(n - 1) < psd.len() {
        integrate_band(psd, n)
    } else {
        0
    };
    (bp, next)
}

/// Where the leaks start to decay: behind the first band from 2 to 6 that the next one does not
/// fall below, at 7 at the latest.
pub open spec fn leak_begin(bp: Seq<i32>, bin: int) -> int
    decreases 7 - bin,
{
    if bin >= 7 {
        7
    } else if (bp.len() != 7 || bin != 6) && bp[bin] <= bp[bin + 1] {
        bin + 1
    } else {
        leak_begin(bp, bin + 1)
    }
}

/// Low frequency compensation of band `bin`, `next` being the level behind the last band. The last of
/// seven bands does not look at it, and keeps the compensation of the band before it.
pub open spec fn lowcomp(bp: Seq<i32>, next: int, bin: nat) -> int
    decreases bin,
{
    let before = if bin == 0 {
        0
    } else {
        lowcomp(bp, next, (bin - 1) as nat)
    };
    let after = if bin + 1 < bp.len() {
        bp[bin as int + 1] as int
    } else {
        next
    };
    if bp.len() == 7 && bin == 6 {
        before
    } else {
        next_lowcomp(before, bp[bin as int] as int, after, bin as int)
    }
}

/// A leak at band `bin`: it follows the band's level less `gain`, and from `begin` on it falls by no
/// more than `decay` from band to band.
pub open spec fn leak(bp: Seq<i32>, gain: int, decay: int, begin: int, bin: nat) -> int
    decreases bin,
{
    if bin < begin || bin == 0 {
        bp[bin as int] - gain
    } else {
        larger(leak(bp, gain, decay, begin, (bin - 1) as nat) - decay, bp[bin as int] - gain)
    }
}

/// The excitation of band `bin`.
pub open spec fn excitation(bp: Seq<i32>, next: int, bin: nat) -> int {
    let begin = leak_begin(bp, 2);
    let fast = leak(bp, FGAIN as int, FDECAY as int, begin, bin);
    let slow = leak(bp, SGAIN as int, SDECAY as int, begin, bin);
    if bin < begin {
        fast - lowcomp(bp, next, bin)
    } else if bin < 22 {
        larger(fast - lowcomp(bp, next, bin), slow)
    } else {
        larger(fast, slow)
    }
}

/// The masking level of band `bin`: the excitation, raised below the decibel knee, and at least the
/// hearing threshold.
pub open spec fn mask_level(bp: Seq<i32>, next: int, fscod: int, bin: nat) -> int {
    let raised = excitation(bp, next, bin) + (if bp[bin as int] < DBKNEE {
        (DBKNEE - bp[bin as int]) / 4
    } else {
        0
    });
    larger(raised, alloc_tables::hth(fscod, bin as int))
}

fn find_leak_begin(bp: &Vec<i32>) -> (begin: usize)
    requires
        bp@.len() >= 7,
    ensures
        begin == leak_begin(bp@, 2),
        3 <= begin <= 7,
{
    let mut bin: usize = 2;
    while bin < 7
        invariant
            2 <= bin <= 7,
            bp@.len() >= 7,
            leak_begin(bp@, 2) == leak_begin(bp@, bin as int),
        decreases 7 - bin,
    {
        if (bp.len() != 7 || bin != 6) && bp[bin] <= bp[bin + 1] {
            return bin + 1;
        }
        bin = bin + 1;
    }
    7
}

fn leak_step(before: i32, decay: i32, level: i32) -> (r: i32)
    requires
        -1000000 <= before <= 1000000,
        0 <= decay <= 1000,
        -200000 <= level <= 200000,
    ensures
        r == larger(before - decay, level as int),
{
    if before - decay >= level {
        before - decay
    } else {
        level
    }
}

fn masks(bp: &Vec<i32>, next: i32, fscod: usize) -> (mask: Vec<i32>)
    requires
        fscod < 3,
        7 <= bp@.len() <= 50,
        -130000 <= next <= 130000,
        forall|k: int| 0 <= k < bp@.len() ==> -130000 <= #[trigger] bp@[k] <= 130000,
    ensures
        mask@.len() == bp@.len(),
        forall|k: int|
            0 <= k < bp@.len() ==> #[trigger] mask@[k] == mask_level(bp@, next as int, fscod as int, k as nat),
        forall|k: int| 0 <= k < bp@.len() ==> -400000 <= #[trigger] mask@[k] <= 400000,
{
    let begin = find_leak_begin(bp);
    let n = bp.len();
    let ghost b = bp@;
    let mut mask: Vec<i32> = Vec::with_capacity(n);
    let mut low: i32 = 0;
    let mut fast: i32 = 0;
    let mut slow: i32 = 0;
    let mut bin: usize = 0;
    while bin < n
        invariant
            bin <= n,
            b == bp@,
            n == b.len(),
            fscod < 3,
            7 <= n <= 50,
            -130000 <= next <= 130000,
            forall|k: int| 0 <= k < n ==> -130000 <= #[trigger] b[k] <= 130000,
            begin == leak_begin(b, 2),
            3 <= begin <= 7,
            0 <= low <= 384,
            -140000 <= fast <= 130000,
            -140000 <= slow <= 130000,
            bin == 0 ==> low == 0,
            0 < bin <= 22 ==> low == lowcomp(b, next as int, (bin - 1) as nat),
            bin > 0 ==> fast == leak(b, FGAIN as int, FDECAY as int, begin as int, (bin - 1) as nat),
            bin > 0 ==> slow == leak(b, SGAIN as int, SDECAY as int, begin as int, (bin - 1) as nat),
            mask@.len() == bin,
            forall|k: int|
                0 <= k < bin ==> #[trigger] mask@[k] == mask_level(b, next as int, fscod as int, k as nat),
            forall|k: int| 0 <= k < bin ==> -400000 <= #[trigger] mask@[k] <= 400000,
        decreases n - bin,
    {
        let level = bp[bin];
        assert(-130000 <= b[bin as int] <= 130000);
        if bin < 22 && (n != 7 || bin != 6) {
            let after: i32 = if bin + 1 < n {
                bp[bin + 1]
            } else {
                next
            };
            low = calc_lowcomp(low, level, after, bin);
        }
        if bin < begin {
            fast = level - FGAIN;
            slow = level - SGAIN;
        } else {
            fast = leak_step(fast, FDECAY, level - FGAIN);
            slow = leak_step(slow, SDECAY, level - SGAIN);
        }
        assert(fast == leak(b, FGAIN as int, FDECAY as int, begin as int, bin as nat));
        assert(slow == leak(b, SGAIN as int, SDECAY as int, begin as int, bin as nat));
        assert(bin < 22 ==> low == lowcomp(b, next as int, bin as nat));
        let excite: i32 = if bin < begin {
            fast - low
        } else {
            let f: i32 = if bin < 22 {
                fast - low
            } else {
                fast
            };
            if f >= slow {
                f
            } else {
                slow
            }
        };
        assert(excite == excitation(b, next as int, bin as nat));
        let raised: i32 = if level < DBKNEE {
            excite + (DBKNEE - level) / 4
        } else {
            excite
        };
        let threshold = hth_entry(fscod, bin);
        let m: i32 = if raised >= threshold {
            raised
        } else {
            threshold
        };
        mask.push(m);
        bin = bin + 1;
    }
    mask
}

// ------------------------------------------------------------------ bit allocation and mantissas

/// What a bin's level is compared with: the masking level less the SNR offset, in steps of 32 within
/// 13 bits above the floor.
pub open spec fn masked_level(mask: int, snroffset: int) -> int {
    (larger(mask - snroffset + FLOOR, 0) / 32 % 256) * 32 - FLOOR
}

/// Bit allocation pointer of bin `i`.
pub open spec fn bap_of(
    psd: Seq<i32>,
    bp: Seq<i32>,
    next: int,
    fscod: int,
    snroffset: int,
    i: int,
) -> int {
    let mask = mask_level(bp, next, fscod, alloc_tables::masktab(i) as nat);
    let steps = (psd[i] - masked_level(mask, snroffset)) / 32;
    alloc_tables::baptab(
        if steps < 0 {
            0
        } else if steps > 63 {
            63
        } else {
            steps
        },
    )
}

/// Bins of a channel.
pub const MAXBIN: usize = 256;

/// Bit allocation pointers of a channel with `end` bins; the bins behind them have pointer zero.
pub open spec fn baps(psd: Seq<i32>, end: int, fscod: int, snroffset: int) -> Seq<u8> {
    let bp = band_levels(psd, band_count(end));
    let next = next_level(psd, end);
    Seq::new(
        MAXBIN as nat,
        |i: int|
            if i < end {
                bap_of(psd, bp, next, fscod, snroffset, i) as u8
            } else {
                0
            },
    )
}

/// Compute the bit allocation pointers of a channel with `end` bins with the fixed parameters; `fscod`
/// selects the hearing-threshold table.
pub fn allocate(psd: &Vec<i32>, end: usize, snroffset: i32, fscod: usize) -> (bap: Vec<u8>)
    requires
        levels_ok(psd@),
        end_ok(end as int),
        end <= psd@.len(),
        fscod < 3,
        -10000 <= snroffset <= 10000,
    ensures
        bap@ == baps(psd@, end as int, fscod as int, snroffset as int),
        bap@.len() == MAXBIN,
        forall|i: int| 0 <= i < bap@.len() ==> #[trigger] bap@[i] < 16,
        forall|i: int| end <= i < bap@.len() ==> #[trigger] bap@[i] == 0,
{
    let (bp, next) = integrate(psd, end);
    let mask = masks(&bp, next, fscod);
    let mut bap: Vec<u8> = Vec::with_capacity(MAXBIN);
    let mut i: usize = 0;
    while i < end
        invariant
            i <= end,
            end_ok(end as int),
            end <= psd@.len(),
            levels_ok(psd@),
            -10000 <= snroffset <= 10000,
            bp@ == band_levels(psd@, band_count(end as int)),
            mask@.len() == bp@.len(),
            forall|k: int|
                0 <= k < bp@.len() ==> #[trigger] mask@[k] == mask_level(
                    bp@,
                    next as int,
                    fscod as int,
                    k as nat,
                ),
            forall|k: int| 0 <= k < bp@.len() ==> -400000 <= #[trigger] mask@[k] <= 400000,
            bap@.len() == i,
            forall|k: int|
                0 <= k < i ==> #[trigger] bap@[k] == bap_of(
                    psd@,
                    bp@,
                    next as int,
                    fscod as int,
                    snroffset as int,
                    k,
                ) as u8,
            forall|k: int| 0 <= k < i ==> #[trigger] bap@[k] < 16,
        decreases end - i,
    {
        proof {
            alloc_tables::lemma_masktab(i as int);
            alloc_tables::lemma_masktab_mono(i as int, end - 1);
        }
        let m = mask[mask_entry(i)] - snroffset + FLOOR;
        let masked: i32 = if m < 0 {
            -FLOOR
        } else {
            (m / 32 % 256) * 32 - FLOOR
        };
        let over = psd[i] - masked;
        let address: usize = if over < 0 {
            0
        } else if over / 32 > 63 {
            63
        } else {
            (over / 32) as usize
        };
        bap.push(bap_entry(address));
        i = i + 1;
    }
    let ghost coded = bap@;
    while i < MAXBIN
        invariant
            end <= i <= MAXBIN,
            coded.len() == end,
            bap@.len() == i,
            bap@.take(end as int) == coded,
            forall|k: int| end <= k < i ==> #[trigger] bap@[k] == 0,
        decreases MAXBIN - i,
    {
        bap.push(0);
        i = i + 1;
        assert(bap@.take(end as int) =~= coded);
    }
    proof {
        assert forall|k: int| 0 <= k < end implies #[trigger] bap@[k] == coded[k] by {
            assert(bap@.take(end as int)[k] == coded[k]);
        }
        assert(bap@ =~= baps(psd@, end as int, fscod as int, snroffset as int));
    }
    bap
}

/// How many of the pointers equal `b`.
pub open spec fn count_of(s: Seq<u8>, b: u8) -> nat
    decreases s.len(),
{
    if s.len() == 0 {
        0
    } else {
        count_of(s.drop_last(), b) + (if s.last() == b {
            1nat
        } else {
            0
        })
    }
}

/// Bits of the mantissas that are coded one by one (pointers from 5 on).
pub open spec fn single_bits(s: Seq<u8>) -> nat
    decreases s.len(),
{
    if s.len() == 0 {
        0
    } else {
        single_bits(s.drop_last()) + (if s.last() == 0 || s.last() >= 5 {
            alloc_tables::bits_to_read(s.last() as int) as nat
        } else {
            0
        })
    }
}

/// Where each grouped quantizer stands in its group of three, three and two mantissas. A group's code
/// is read when the position wraps.
#[derive(Clone, Copy)]
pub struct GroupPos {
    pub bap1: u32,
    pub bap2: u32,
    pub bap4: u32,
}

impl GroupPos {
    pub open spec fn ok(self) -> bool {
        self.bap1 < 3 && self.bap2 < 3 && self.bap4 < 2
    }
}

/// Bits of the mantissas: five for each group with pointer 1, seven for each group with pointer 2 or
/// 4, three for each mantissa with pointer 3, and those of the single ones.
pub open spec fn mantissa_bits(s: Seq<u8>, g: GroupPos) -> int {
    single_bits(s) + (g.bap1 + count_of(s, 1)) / 3 * 5 + (g.bap2 + count_of(s, 2)) / 3 * 7
        + count_of(s, 3) * 3 + (g.bap4 + count_of(s, 4)) / 2 * 7
}

/// The grouped quantizers behind the mantissas.
pub open spec fn groups_after(s: Seq<u8>, g: GroupPos) -> GroupPos {
    GroupPos {
        bap1: ((g.bap1 + count_of(s, 1)) % 3) as u32,
        bap2: ((g.bap2 + count_of(s, 2)) % 3) as u32,
        bap4: ((g.bap4 + count_of(s, 4)) % 2) as u32,
    }
}

/// Pointers of two runs, counted together.
proof fn lemma_counts_add(a: Seq<u8>, b: Seq<u8>)
    ensures
        forall|x: u8| #[trigger] count_of(a + b, x) == count_of(a, x) + count_of(b, x),
        single_bits(a + b) == single_bits(a) + single_bits(b),
    decreases b.len(),
{
    if b.len() == 0 {
        assert(a + b =~= a);
    } else {
        lemma_counts_add(a, b.drop_last());
        assert((a + b).drop_last() =~= a + b.drop_last());
        assert((a + b).last() == b.last());
        assert forall|x: u8| #[trigger] count_of(a + b, x) == count_of(a, x) + count_of(b, x) by {
            assert(count_of(a + b.drop_last(), x) == count_of(a, x) + count_of(b.drop_last(), x));
        }
    }
}

/// Groups of three: `b` more behind `x`.
proof fn lemma_thirds(x: int, b: int)
    requires
        0 <= x,
        0 <= b,
    ensures
        (x + b) / 3 == x / 3 + (x % 3 + b) / 3,
        (x + b) % 3 == (x % 3 + b) % 3,
{
}

/// Groups of two.
proof fn lemma_halves(x: int, b: int)
    requires
        0 <= x,
        0 <= b,
    ensures
        (x + b) / 2 == x / 2 + (x % 2 + b) / 2,
        (x + b) % 2 == (x % 2 + b) % 2,
{
}

/// Counting the mantissas of two adjacent ranges, the second one from where the grouped quantizers stand
/// behind the first, gives the bits and the positions of one count over both.
pub proof fn law_mantissas_add(bap: Seq<u8>, start: int, mid: int, end: int, g: GroupPos)
    requires
        0 <= start <= mid <= end <= bap.len(),
        g.ok(),
    ensures
        ({
            let first = bap.subrange(start, mid);
            let second = bap.subrange(mid, end);
            let both = bap.subrange(start, end);
            let h = groups_after(first, g);
            &&& mantissa_bits(both, g) == mantissa_bits(first, g) + mantissa_bits(second, h)
            &&& groups_after(both, g) == groups_after(second, h)
            &&& h.ok() && groups_after(both, g).ok()
        }),
{
    let first = bap.subrange(start, mid);
    let second = bap.subrange(mid, end);
    assert(bap.subrange(start, end) =~= first + second);
    lemma_counts_add(first, second);
    let a1 = count_of(first, 1) as int;
    let a2 = count_of(first, 2) as int;
    let a4 = count_of(first, 4) as int;
    lemma_thirds(g.bap1 + a1, count_of(second, 1) as int);
    lemma_thirds(g.bap2 + a2, count_of(second, 2) as int);
    lemma_halves(g.bap4 + a4, count_of(second, 4) as int);
    assert(count_of(first + second, 1) == a1 + count_of(second, 1));
    assert(count_of(first + second, 2) == a2 + count_of(second, 2));
    assert(count_of(first + second, 3) == count_of(first, 3) + count_of(second, 3));
    assert(count_of(first + second, 4) == a4 + count_of(second, 4));
}

/// Count the mantissa bits of the bins from `start` up to `end`, advancing the grouped quantizers.
pub fn count_mantissa(bap: &Vec<u8>, start: usize, end: usize, g: &mut GroupPos) -> (bits: u32)
    requires
        old(g).ok(),
        start <= end <= bap@.len(),
        end - start <= 255,
        forall|i: int| start <= i < end ==> #[trigger] bap@[i] < 16,
    ensures
        bits == mantissa_bits(bap@.subrange(start as int, end as int), *old(g)),
        *final(g) == groups_after(bap@.subrange(start as int, end as int), *old(g)),
        final(g).ok(),
        bits <= 5000,
{
    let ghost all = bap@.subrange(start as int, end as int);
    let mut single: u32 = 0;
    let mut n1: u32 = 0;
    let mut n2: u32 = 0;
    let mut n3: u32 = 0;
    let mut n4: u32 = 0;
    let mut i: usize = start;
    while i < end
        invariant
            start <= i <= end <= bap@.len(),
            end - start <= 255,
            all == bap@.subrange(start as int, end as int),
            forall|k: int| start <= k < end ==> #[trigger] bap@[k] < 16,
            single == single_bits(all.take(i - start)),
            n1 == count_of(all.take(i - start), 1),
            n2 == count_of(all.take(i - start), 2),
            n3 == count_of(all.take(i - start), 3),
            n4 == count_of(all.take(i - start), 4),
            single <= 16 * (i - start),
            n1 + n2 + n3 + n4 <= i - start,
            single + 16 * (n1 + n2 + n3 + n4) <= 16 * (i - start),
        decreases end - i,
    {
        let b = bap[i];
        proof {
            let k = i - start;
            assert(all.take(k + 1).drop_last() =~= all.take(k));
            assert(all.take(k + 1).last() == b);
        }
        if b == 1 {
            n1 = n1 + 1;
        } else if b == 2 {
            n2 = n2 + 1;
        } else if b == 3 {
            n3 = n3 + 1;
        } else if b == 4 {
            n4 = n4 + 1;
        } else {
            single = single + bits_entry(b);
        }
        i = i + 1;
    }
    assert(all.take(i - start) =~= all);
    let p = *g;
    *g = GroupPos { bap1: (p.bap1 + n1) % 3, bap2: (p.bap2 + n2) % 3, bap4: (p.bap4 + n4) % 2 };
    single + (p.bap1 + n1) / 3 * 5 + (p.bap2 + n2) / 3 * 7 + n3 * 3 + (p.bap4 + n4) / 2 * 7
}

// ------------------------------------------------------------------ the audio frame header

/// What the walk needs of the audio frame header.
#[derive(Clone, Copy)]
pub struct Audfrm {
    /// Bit offset of the skip field enable bit.
    pub skipfld_bit: usize,
    /// Bit offset where the first audio block begins.
    pub block0_bit: usize,
    pub dithflage: bool,
    pub blkswe: bool,
    pub frmfgaincode: bool,
    pub frmcsnroffst: u32,
    pub frmfsnroffst: u32,
    /// Bit offset of the frame exponent strategy codes, five bits for each channel.
    pub chexp_bit: usize,
    /// Bit offset of the LFE exponent strategy flags, one for each block.
    pub lfeexp_bit: usize,
}

/// Where the coupling flags of `n` further blocks end, when they begin at `p`.
pub open spec fn coupling_end(s: Seq<bool>, p: int, n: nat) -> int
    decreases n,
{
    if n == 0 {
        p
    } else {
        bsi::after_opt(s, coupling_end(s, p, (n - 1) as nat), 1)
    }
}

/// Whether coupling is switched on in one of them.
pub open spec fn coupling_used(s: Seq<bool>, p: int, n: nat) -> bool
    decreases n,
{
    if n == 0 {
        false
    } else {
        let e = coupling_end(s, p, (n - 1) as nat);
        coupling_used(s, p, (n - 1) as nat) || (bits::bit(s, e) && bits::bit(s, e + 1))
    }
}

/// The number of binary digits of `v`.
pub open spec fn digits(v: nat) -> nat
    decreases v,
{
    if v == 0 {
        0
    } else {
        1 + digits(v / 2)
    }
}

/// Bits of the block start info of a frame of `size` bytes: four, and as many as a word index
/// takes, for each block but the first.
pub open spec fn blkstrt_bits(size: int) -> int {
    let words = size % 0x1_0000_0000 / 2;
    let last = if words > 0 {
        words - 1
    } else {
        0
    };
    5 * (4 + digits(last as nat) as int)
}

/// Whether the audio frame header at bit `b` keeps to the subset.
pub open spec fn audfrm_ok(s: Seq<bool>, info: FrameInfo, b: int) -> bool {
    &&& info.acmod == 7 && info.lfe && info.blocks == 6 && info.strmtyp == 0
    &&& !bits::bit(s, b)  // expstre
    &&& !bits::bit(s, b + 1)  // ahte
    &&& bits::field(s, b + 2, 2) == 0  // snroffststr
    &&& !bits::bit(s, b + 4)  // transproce
    &&& !bits::bit(s, b + 7)  // bamode
    &&& !bits::bit(s, b + 9)  // dbaflde
    &&& !bits::bit(s, b + 11)  // spxattene
    &&& !bits::bit(s, b + 12) && !coupling_used(s, b + 13, 5)
}

/// The audio frame header at bit `b`.
pub open spec fn audfrm_at(s: Seq<bool>, info: FrameInfo, b: int) -> Audfrm {
    let p = coupling_end(s, b + 13, 5);
    Audfrm {
        skipfld_bit: (b + 10) as usize,
        block0_bit: bsi::after_opt(s, p + 66, blkstrt_bits(info.size as int)) as usize,
        dithflage: bits::bit(s, b + 6),
        blkswe: bits::bit(s, b + 5),
        frmfgaincode: bits::bit(s, b + 8),
        frmcsnroffst: bits::field(s, p + 56, 6) as u32,
        frmfsnroffst: bits::field(s, p + 62, 4) as u32,
        chexp_bit: p as usize,
        lfeexp_bit: (p + 25) as usize,
    }
}

proof fn lemma_digits(v: nat, n: nat)
    requires
        v < bits::two(n),
    ensures
        digits(v) <= n,
    decreases n,
{
    if v > 0 {
        assert(n > 0);
        lemma_digits(v / 2, (n - 1) as nat);
    }
}

proof fn lemma_coupling_bound(s: Seq<bool>, p: int, n: nat)
    ensures
        p + n <= coupling_end(s, p, n) <= p + 2 * n,
    decreases n,
{
    if n > 0 {
        lemma_coupling_bound(s, p, (n - 1) as nat);
    }
}

proof fn lemma_blkstrt_bound(size: int)
    requires
        size >= 0,
    ensures
        0 <= blkstrt_bits(size) <= 180,
{
    let words = size % 0x1_0000_0000 / 2;
    bits::lemma_two_values();
    lemma_digits((if words > 0 {
        words - 1
    } else {
        0
    }) as nat, 32);
}

fn count_digits(v: u32) -> (n: u32)
    ensures
        n == digits(v as nat),
{
    let mut rest: u32 = v;
    let mut n: u32 = 0;
    proof {
        bits::lemma_two_values();
        lemma_digits(v as nat, 32);
    }
    while rest > 0
        invariant
            digits(v as nat) <= 32,
            n + digits(rest as nat) == digits(v as nat),
        decreases rest,
    {
        rest = rest / 2;
        n = n + 1;
    }
    n
}

/// Reads the coupling flags of the blocks behind the first: whether one switches coupling on.
fn read_coupling(r: &mut BitReader) -> (used: bool)
    requires
        old(r).pos + 10 <= usize::MAX,
    ensures
        final(r).data@ == old(r).data@,
        final(r).pos == coupling_end(old(r).bits(), old(r).pos as int, 5),
        used == coupling_used(old(r).bits(), old(r).pos as int, 5),
{
    let ghost s = r.bits();
    let ghost p = r.pos as int;
    let mut used = false;
    let mut n: usize = 0;
    while n < 5
        invariant
            n <= 5,
            p + 10 <= usize::MAX,
            s == bits::bits_of(r.data@),
            r.data@ == old(r).data@,
            r.pos == coupling_end(s, p, n as nat),
            r.pos <= p + 2 * n,
            used == coupling_used(s, p, n as nat),
        decreases 5 - n,
    {
        if r.read_bit() {
            if r.read_bit() {
                used = true;
            }
        }
        n = n + 1;
    }
    used
}

/// Parse the audio-frame header at bit `bsi_end_bit`. None if the frame uses features outside the
/// subset.
fn parse_audfrm(frame: &[u8], info: &FrameInfo, bsi_end_bit: usize) -> (r: Option<Audfrm>)
    requires
        bsi_end_bit <= usize::MAX - 0x10_0000,
    ensures
        r is Some == audfrm_ok(bits::bits_of(frame@), *info, bsi_end_bit as int),
        r matches Some(af) ==> {
            &&& af == audfrm_at(bits::bits_of(frame@), *info, bsi_end_bit as int)
            &&& bsi_end_bit < af.lfeexp_bit == af.chexp_bit + 25
            &&& af.lfeexp_bit < af.block0_bit <= bsi_end_bit + 300
            &&& af.frmcsnroffst < 64 && af.frmfsnroffst < 16
        },
{
    if info.acmod != 7 || !info.lfe || info.blocks != 6 || info.strmtyp != 0 {
        return None;
    }
    let ghost s = bits::bits_of(frame@);
    let ghost b = bsi_end_bit as int;
    let mut r = BitReader::at(frame, bsi_end_bit);
    let expstre = r.read_bit();
    let ahte = r.read_bit();
    let snroffststr = r.read(2);
    let transproce = r.read_bit();
    let blkswe = r.read_bit();
    let dithflage = r.read_bit();
    let bamode = r.read_bit();
    let frmfgaincode = r.read_bit();
    let dbaflde = r.read_bit();
    let skipfld_bit = r.pos;
    r.read_bit();  // skipflde
    let spxattene = r.read_bit();
    if expstre || ahte || snroffststr != 0 || transproce || bamode || dbaflde || spxattene {
        return None;
    }
    let cplinu0 = r.read_bit();
    let coupling = read_coupling(&mut r);
    if cplinu0 || coupling {
        return None;
    }
    let p = r.pos;
    proof {
        lemma_coupling_bound(s, b + 13, 5);
        lemma_blkstrt_bound(info.size as int);
        bits::lemma_two_values();
        bits::lemma_field_bound(s, p + 56, 6);
        bits::lemma_field_bound(s, p + 62, 4);
    }
    r.seek(p + 56);  // behind frmchexpstr, lfeexpstr and the converter exponent strategy
    let frmcsnroffst = r.read(6);
    let frmfsnroffst = r.read(4);
    if r.read_bit() {
        // blkstrtinfoe
        let words = (info.size as u64 % 0x1_0000_0000) as u32 / 2;
        let last: u32 = if words > 0 {
            words - 1
        } else {
            0
        };
        proof {
            lemma_digits(last as nat, 32);
        }
        let nbits = 5 * (4 + count_digits(last));
        let at = r.pos;
        r.seek(at + nbits as usize);
    }
    Some(
        Audfrm {
            skipfld_bit,
            block0_bit: r.pos,
            dithflage,
            blkswe,
            frmfgaincode,
            frmcsnroffst,
            frmfsnroffst,
            chexp_bit: p,
            lfeexp_bit: p + 25,
        },
    )
}

// ------------------------------------------------------------------ the audio blocks

/// What the walk keeps of the channels from block to block.
#[verifier::ext_equal]
pub struct Channels {
    /// Spectral level of each bin, for each full-bandwidth channel.
    pub psd: Seq<Seq<i32>>,
    /// End of the mantissas of each full-bandwidth channel.
    pub end: Seq<int>,
    /// Spectral level of each bin of the LFE channel.
    pub lfe: Seq<i32>,
}

impl Channels {
    /// The channels before the first block.
    pub open spec fn initial() -> Channels {
        Channels {
            psd: seq![seq![], seq![], seq![], seq![], seq![]],
            end: seq![0, 0, 0, 0, 0],
            lfe: seq![0i32, 0, 0, 0, 0, 0, 0],
        }
    }

    /// Every full-bandwidth channel has levels up to its end.
    pub open spec fn ready(self) -> bool {
        forall|ch: int|
            0 <= ch < 5 ==> {
                &&& end_ok(#[trigger] self.end[ch])
                &&& self.end[ch] <= self.psd[ch].len()
                &&& levels_ok(self.psd[ch])
            }
    }
}

/// Exponent strategy of channel `ch` in block `block`.
pub open spec fn strategy(s: Seq<bool>, af: Audfrm, block: int, ch: int) -> int {
    alloc_tables::frm_exp_str(bits::field(s, af.chexp_bit + 5 * ch, 5) as int, block)
}

/// Where the spectral extension flags stand, behind block switch and dither flags and dynamic range.
pub open spec fn spx_pos(s: Seq<bool>, af: Audfrm, pos: int) -> int {
    let p1 = pos + (if af.blkswe {
        5int
    } else {
        0
    });
    let p2 = p1 + (if af.dithflage {
        5int
    } else {
        0
    });
    bsi::after_opt(s, p2, 8)
}

/// Where the bandwidth codes stand. The first block has no flag for its spectral extension strategy.
pub open spec fn bandwidth_pos(s: Seq<bool>, block: int, p: int) -> int {
    if block == 0 {
        p + 1
    } else {
        bsi::after_opt(s, p, 1)
    }
}

/// Whether spectral extension is switched on.
pub open spec fn spx_used(s: Seq<bool>, block: int, p: int) -> bool {
    if block == 0 {
        bits::bit(s, p)
    } else {
        bits::bit(s, p) && bits::bit(s, p + 1)
    }
}

/// Where the bandwidth code of channel `ch` stands, or would stand: a channel that reuses its
/// exponents has none.
pub open spec fn chbwcod_pos(s: Seq<bool>, af: Audfrm, block: int, p: int, ch: nat) -> int
    decreases ch,
{
    if ch == 0 {
        p
    } else {
        chbwcod_pos(s, af, block, p, (ch - 1) as nat) + (if strategy(s, af, block, ch - 1) != 0 {
            6int
        } else {
            0
        })
    }
}

/// The bandwidth code of channel `ch`.
pub open spec fn chbwcod(s: Seq<bool>, af: Audfrm, block: int, p: int, ch: int) -> int {
    bits::field(s, chbwcod_pos(s, af, block, p, ch as nat), 6) as int
}

/// Every bandwidth code is a valid one.
pub open spec fn bandwidths_ok(s: Seq<bool>, af: Audfrm, block: int, p: int) -> bool {
    forall|ch: int|
        0 <= ch < 5 && strategy(s, af, block, ch) != 0 ==> #[trigger] chbwcod(s, af, block, p, ch)
            <= 60
}

/// Ends of the mantissas of the full-bandwidth channels.
pub open spec fn next_ends(s: Seq<bool>, af: Audfrm, block: int, p: int, end: Seq<int>) -> Seq<int> {
    Seq::new(
        5,
        |ch: int|
            if strategy(s, af, block, ch) != 0 {
                (chbwcod(s, af, block, p, ch) + 12) * 3 + 37
            } else {
                end[ch]
            },
    )
}

/// How many exponent groups a channel has.
pub open spec fn group_count(strat: int, end: int) -> int {
    if strat == 1 {
        (end - 1) / 3
    } else if strat == 2 {
        (end + 2) / 6
    } else {
        (end + 8) / 12
    }
}

/// Where the exponents of channel `ch` stand, or would stand.
pub open spec fn exponent_pos(
    s: Seq<bool>,
    af: Audfrm,
    block: int,
    p: int,
    end: Seq<int>,
    ch: nat,
) -> int
    decreases ch,
{
    if ch == 0 {
        p
    } else {
        let strat = strategy(s, af, block, ch - 1);
        exponent_pos(s, af, block, p, end, (ch - 1) as nat) + (if strat != 0 {
            6 + 7 * group_count(strat, end[ch - 1])
        } else {
            0
        })
    }
}

/// The `n` group codes at `pos`.
pub open spec fn codes_at(s: Seq<bool>, pos: int, n: nat) -> Seq<u8> {
    Seq::new(n, |i: int| bits::field(s, pos + 7 * i, 7) as u8)
}

/// The levels that the exponents at `q` stand for.
pub open spec fn levels_at(s: Seq<bool>, q: int, strat: int, end: int) -> Seq<i32> {
    psd_of(
        bits::field(s, q, 4) as int,
        codes_at(s, q + 4, group_count(strat, end) as nat),
        group_size(strat),
    )
}

/// The levels of the full-bandwidth channels.
pub open spec fn next_psd(
    s: Seq<bool>,
    af: Audfrm,
    block: int,
    p: int,
    end: Seq<int>,
    psd: Seq<Seq<i32>>,
) -> Seq<Seq<i32>> {
    Seq::new(
        5,
        |ch: int|
            if strategy(s, af, block, ch) != 0 {
                levels_at(
                    s,
                    exponent_pos(s, af, block, p, end, ch as nat),
                    strategy(s, af, block, ch),
                    end[ch],
                )
            } else {
                psd[ch]
            },
    )
}

/// Where the fast gain flag stands, or would stand, behind the LFE exponents at `q`.
pub open spec fn fgain_pos(s: Seq<bool>, af: Audfrm, block: int, q: int) -> int {
    if bits::bit(s, af.lfeexp_bit + block) {
        q + 18
    } else {
        q
    }
}

/// Where the converter SNR offset flag stands.
pub open spec fn convsnr_pos(af: Audfrm, q: int) -> int {
    if af.frmfgaincode {
        q + 1
    } else {
        q
    }
}

/// What one block holds in front of its mantissas.
pub struct BlockHead {
    /// Whether the block keeps to the subset.
    pub ok: bool,
    /// Where its skip field stands.
    pub skip: int,
    pub channels: Channels,
}

/// The head of block `block` at `pos`, given what the blocks before it left in `c`.
pub open spec fn block_head(s: Seq<bool>, af: Audfrm, block: int, pos: int, c: Channels) -> BlockHead {
    let p1 = spx_pos(s, af, pos);
    let p2 = bandwidth_pos(s, block, p1);
    let p3 = chbwcod_pos(s, af, block, p2, 5);
    let end = next_ends(s, af, block, p2, c.end);
    let p4 = exponent_pos(s, af, block, p3, end, 5);
    let p5 = fgain_pos(s, af, block, p4);
    let lfe = if bits::bit(s, af.lfeexp_bit + block) {
        levels_at(s, p4, 1, 7)
    } else {
        c.lfe
    };
    BlockHead {
        ok: !spx_used(s, block, p1) && bandwidths_ok(s, af, block, p2) && !(af.frmfgaincode && bits::bit(
            s,
            p5,
        )),
        skip: bsi::after_opt(s, convsnr_pos(af, p5), 10),
        channels: Channels { psd: next_psd(s, af, block, p3, end, c.psd), end, lfe },
    }
}

/// The SNR offset of the frame.
pub open spec fn snr_offset(af: Audfrm) -> int {
    ((af.frmcsnroffst - 15) * 16 + af.frmfsnroffst) * 4
}

/// Mantissa bits of the first `n` full-bandwidth channels, and the grouped quantizers behind them.
pub open spec fn channel_bits(af: Audfrm, fscod: int, c: Channels, n: nat) -> (int, GroupPos)
    decreases n,
{
    if n == 0 {
        (0, GroupPos { bap1: 2, bap2: 2, bap4: 1 })
    } else {
        let (total, g) = channel_bits(af, fscod, c, (n - 1) as nat);
        let b = baps(c.psd[n - 1], c.end[n - 1], fscod, snr_offset(af)).subrange(0, c.end[n - 1]);
        (total + mantissa_bits(b, g), groups_after(b, g))
    }
}

/// Mantissa bits of a block. With both SNR offsets zero no mantissa is coded.
pub open spec fn block_bits(af: Audfrm, fscod: int, c: Channels) -> int {
    if af.frmcsnroffst == 0 && af.frmfsnroffst == 0 {
        0
    } else {
        let (total, g) = channel_bits(af, fscod, c, 5);
        total + mantissa_bits(baps(c.lfe, 7, fscod, snr_offset(af)).subrange(0, 7), g)
    }
}

/// A walk through some blocks: the skip field points, the position behind them and the channels.
#[verifier::ext_equal]
pub struct Walk {
    pub points: Seq<int>,
    pub pos: int,
    pub channels: Channels,
}

/// The walk through the first `n` blocks. None if one of them leaves the subset.
pub open spec fn walk(s: Seq<bool>, af: Audfrm, fscod: int, n: nat) -> Option<Walk>
    decreases n,
{
    if n == 0 {
        Some(
            Walk { points: seq![], pos: af.block0_bit as int, channels: Channels::initial() },
        )
    } else {
        match walk(s, af, fscod, (n - 1) as nat) {
            None => None,
            Some(w) => {
                let h = block_head(s, af, n - 1, w.pos, w.channels);
                if h.ok {
                    Some(
                        Walk {
                            points: w.points.push(h.skip),
                            pos: h.skip + block_bits(af, fscod, h.channels),
                            channels: h.channels,
                        },
                    )
                } else {
                    None
                }
            },
        }
    }
}

/// Levels and mantissa ends of the channels.
struct Alloc {
    psd: Vec<Vec<i32>>,
    end: Vec<usize>,
    lfe: Vec<i32>,
}

impl View for Alloc {
    type V = Channels;

    closed spec fn view(&self) -> Channels {
        Channels {
            psd: Seq::new(5, |ch: int| self.psd@[ch]@),
            end: Seq::new(5, |ch: int| self.end@[ch] as int),
            lfe: self.lfe@,
        }
    }
}

impl Alloc {
    closed spec fn wf(&self) -> bool {
        &&& self.psd@.len() == 5
        &&& self.end@.len() == 5
        &&& self.lfe@.len() == 7
        &&& levels_ok(self.lfe@)
    }

    fn new() -> (al: Self)
        ensures
            al.wf(),
            al@ == Channels::initial(),
    {
        let mut psd: Vec<Vec<i32>> = Vec::new();
        psd.push(Vec::new());
        psd.push(Vec::new());
        psd.push(Vec::new());
        psd.push(Vec::new());
        psd.push(Vec::new());
        let mut end: Vec<usize> = Vec::new();
        end.push(0);
        end.push(0);
        end.push(0);
        end.push(0);
        end.push(0);
        let mut lfe: Vec<i32> = Vec::new();
        lfe.push(0);
        lfe.push(0);
        lfe.push(0);
        lfe.push(0);
        lfe.push(0);
        lfe.push(0);
        lfe.push(0);
        let al = Alloc { psd, end, lfe };
        proof {
            let c = Channels::initial();
            assert forall|ch: int| 0 <= ch < 5 implies #[trigger] al@.psd[ch] =~= c.psd[ch] by {}
            assert(al@.psd =~= c.psd);
            assert(al@.end =~= c.end);
            assert(al@.lfe =~= c.lfe);
        }
        al
    }
}

/// Exponent strategy of channel `ch` in block `block`.
fn read_strategy(frame: &[u8], af: &Audfrm, block: usize, ch: usize) -> (strat: u8)
    requires
        block < 6,
        ch < 5,
        af.chexp_bit <= usize::MAX - 100,
    ensures
        strat == strategy(bits::bits_of(frame@), *af, block as int, ch as int),
        strat <= 3,
        block == 0 ==> strat > 0,
{
    let mut r = BitReader::at(frame, af.chexp_bit + 5 * ch);
    frm_entry(r.read(5) as usize, block)
}

/// Reads the bandwidth codes into the mantissa ends. False if one is not valid.
fn read_bandwidths(r: &mut BitReader, af: &Audfrm, block: usize, end: &mut Vec<usize>) -> (ok: bool)
    requires
        block < 6,
        af.chexp_bit <= usize::MAX - 100,
        old(r).pos <= usize::MAX - 100,
        old(end)@.len() == 5,
    ensures
        final(r).data@ == old(r).data@,
        final(end)@.len() == 5,
        ok == bandwidths_ok(old(r).bits(), *af, block as int, old(r).pos as int),
        ok ==> {
            &&& final(r).pos == chbwcod_pos(old(r).bits(), *af, block as int, old(r).pos as int, 5)
            &&& old(r).pos <= final(r).pos <= old(r).pos + 30
            &&& forall|ch: int|
                0 <= ch < 5 ==> {
                    if strategy(old(r).bits(), *af, block as int, ch) != 0 {
                        final(end)@[ch] == (chbwcod(
                            old(r).bits(),
                            *af,
                            block as int,
                            old(r).pos as int,
                            ch,
                        ) + 12) * 3 + 37 && 73 <= final(end)@[ch] <= 253
                    } else {
                        #[trigger] final(end)@[ch] == old(end)@[ch]
                    }
                }
        },
{
    let ghost s = r.bits();
    let ghost p = r.pos as int;
    let ghost b = block as int;
    let ghost end0 = end@;
    let mut ch: usize = 0;
    while ch < 5
        invariant
            ch <= 5,
            block < 6,
            b == block,
            af.chexp_bit <= usize::MAX - 100,
            p <= usize::MAX - 100,
            s == bits::bits_of(r.data@),
            p == old(r).pos,
            r.data@ == old(r).data@,
            end0.len() == 5,
            end@.len() == 5,
            r.pos == chbwcod_pos(s, *af, b, p, ch as nat),
            p <= r.pos <= p + 6 * ch,
            forall|k: int|
                0 <= k < ch && strategy(s, *af, b, k) != 0 ==> #[trigger] chbwcod(s, *af, b, p, k)
                    <= 60,
            forall|k: int|
                0 <= k < ch ==> {
                    if strategy(s, *af, b, k) != 0 {
                        end@[k] == (chbwcod(s, *af, b, p, k) + 12) * 3 + 37 && 73 <= end@[k] <= 253
                    } else {
                        #[trigger] end@[k] == end0[k]
                    }
                },
            forall|k: int| ch <= k < 5 ==> #[trigger] end@[k] == end0[k],
        decreases 5 - ch,
    {
        let strat = read_strategy(r.data, af, block, ch);
        if strat != 0 {
            let code = r.read(6) as usize;
            assert(code == chbwcod(s, *af, b, p, ch as int));
            if code > 60 {
                return false;
            }
            end.set(ch, (code + 12) * 3 + 37);
        }
        ch = ch + 1;
    }
    true
}

fn read_codes(r: &mut BitReader, n: usize) -> (codes: Vec<u8>)
    requires
        n <= 84,
        old(r).pos + 7 * n <= usize::MAX,
    ensures
        final(r).data@ == old(r).data@,
        final(r).pos == old(r).pos + 7 * n,
        codes@ == codes_at(old(r).bits(), old(r).pos as int, n as nat),
        forall|i: int| 0 <= i < codes@.len() ==> #[trigger] codes@[i] < 128,
{
    let ghost s = r.bits();
    let ghost p = r.pos as int;
    let mut codes: Vec<u8> = Vec::with_capacity(n);
    let mut i: usize = 0;
    while i < n
        invariant
            i <= n,
            p + 7 * n <= usize::MAX,
            s == bits::bits_of(r.data@),
            r.data@ == old(r).data@,
            r.pos == p + 7 * i,
            codes@.len() == i,
            forall|k: int| 0 <= k < i ==> #[trigger] codes@[k] == bits::field(s, p + 7 * k, 7) as u8,
            forall|k: int| 0 <= k < i ==> #[trigger] codes@[k] < 128,
        decreases n - i,
    {
        codes.push(r.read(7) as u8);
        i = i + 1;
    }
    assert(codes@ =~= codes_at(s, p, n as nat));
    codes
}

/// Reads the exponents of one channel.
fn read_levels(r: &mut BitReader, strat: u8, end: usize) -> (psd: Vec<i32>)
    requires
        1 <= strat <= 3,
        end == 7 && strat == 1 || 73 <= end <= 253 && end % 3 == 1,
        old(r).pos <= usize::MAX - 1000,
    ensures
        final(r).data@ == old(r).data@,
        final(r).pos == old(r).pos + 4 + 7 * group_count(strat as int, end as int),
        final(r).pos <= old(r).pos + 600,
        psd@ == levels_at(old(r).bits(), old(r).pos as int, strat as int, end as int),
        levels_ok(psd@),
        psd@.len() >= end,
        end == 7 ==> psd@.len() == 7,
{
    let ghost s = r.bits();
    let ghost q = r.pos as int;
    let n: usize = if strat == 1 {
        (end - 1) / 3
    } else if strat == 2 {
        (end + 2) / 6
    } else {
        (end + 8) / 12
    };
    let absexp = r.read(4);
    let codes = read_codes(r, n);
    let psd = ungroup_exponents(absexp as i32, &codes, strat);
    assert(psd@.len() == 1 + 3 * group_size(strat as int) * n);
    proof {
        if strat == 1 {
            assert(3 * group_size(1) * n == 3 * n);
        } else if strat == 2 {
            assert(3 * group_size(2) * n == 6 * n);
        } else {
            assert(3 * group_size(3) * n == 12 * n);
        }
    }
    psd
}

/// Reads the exponents of the channels that do not reuse theirs.
fn read_exponents(
    r: &mut BitReader,
    af: &Audfrm,
    block: usize,
    end: &Vec<usize>,
    psd: &mut Vec<Vec<i32>>,
    Ghost(ends): Ghost<Seq<int>>,
)
    requires
        block < 6,
        af.chexp_bit <= usize::MAX - 100,
        old(r).pos <= usize::MAX - 10000,
        end@.len() == 5,
        ends.len() == 5,
        forall|ch: int| 0 <= ch < 5 ==> #[trigger] end@[ch] == ends[ch],
        old(psd)@.len() == 5,
        forall|ch: int|
            0 <= ch < 5 && strategy(old(r).bits(), *af, block as int, ch) != 0 ==> 73
                <= #[trigger] end@[ch] <= 253 && end@[ch] % 3 == 1,
    ensures
        final(r).data@ == old(r).data@,
        final(r).pos == exponent_pos(
            old(r).bits(),
            *af,
            block as int,
            old(r).pos as int,
            ends,
            5,
        ),
        old(r).pos <= final(r).pos <= old(r).pos + 3100,
        final(psd)@.len() == 5,
        forall|ch: int|
            0 <= ch < 5 ==> {
                if strategy(old(r).bits(), *af, block as int, ch) != 0 {
                    &&& final(psd)@[ch]@ == levels_at(
                        old(r).bits(),
                        exponent_pos(
                            old(r).bits(),
                            *af,
                            block as int,
                            old(r).pos as int,
                            ends,
                            ch as nat,
                        ),
                        strategy(old(r).bits(), *af, block as int, ch),
                        ends[ch],
                    )
                    &&& levels_ok(final(psd)@[ch]@)
                    &&& final(psd)@[ch]@.len() >= ends[ch]
                } else {
                    #[trigger] final(psd)@[ch] == old(psd)@[ch]
                }
            },
{
    let ghost s = r.bits();
    let ghost p = r.pos as int;
    let ghost b = block as int;
    let ghost psd0 = psd@;
    let mut ch: usize = 0;
    while ch < 5
        invariant
            ch <= 5,
            block < 6,
            b == block,
            af.chexp_bit <= usize::MAX - 100,
            p <= usize::MAX - 10000,
            s == bits::bits_of(r.data@),
            r.data@ == old(r).data@,
            end@.len() == 5,
            ends.len() == 5,
            forall|k: int| 0 <= k < 5 ==> #[trigger] end@[k] == ends[k],
            forall|k: int|
                0 <= k < 5 && strategy(s, *af, b, k) != 0 ==> 73 <= #[trigger] end@[k] <= 253
                    && end@[k] % 3 == 1,
            psd@.len() == 5,
            psd0.len() == 5,
            r.pos == exponent_pos(s, *af, b, p, ends, ch as nat),
            p <= r.pos <= p + 610 * ch,
            forall|k: int|
                0 <= k < ch ==> {
                    if strategy(s, *af, b, k) != 0 {
                        &&& psd@[k]@ == levels_at(
                            s,
                            exponent_pos(s, *af, b, p, ends, k as nat),
                            strategy(s, *af, b, k),
                            ends[k],
                        )
                        &&& levels_ok(psd@[k]@)
                        &&& psd@[k]@.len() >= ends[k]
                    } else {
                        #[trigger] psd@[k] == psd0[k]
                    }
                },
            forall|k: int| ch <= k < 5 ==> #[trigger] psd@[k] == psd0[k],
        decreases 5 - ch,
    {
        let strat = read_strategy(r.data, af, block, ch);
        if strat != 0 {
            assert(73 <= end@[ch as int] <= 253);
            let levels = read_levels(r, strat, end[ch]);
            r.read(2);  // gainrng
            psd.set(ch, levels);
        }
        ch = ch + 1;
    }
}

/// Reads past the spectral extension flags. True if spectral extension is switched on.
fn read_spx(r: &mut BitReader, block: usize) -> (used: bool)
    requires
        old(r).pos <= usize::MAX - 100,
    ensures
        final(r).data@ == old(r).data@,
        final(r).pos == bandwidth_pos(old(r).bits(), block as int, old(r).pos as int),
        used == spx_used(old(r).bits(), block as int, old(r).pos as int),
{
    let spxstre = if block == 0 {
        true
    } else {
        r.read_bit()
    };
    if spxstre {
        r.read_bit()
    } else {
        false
    }
}

/// Mantissa bits of a block.
fn count_block(af: &Audfrm, fscod: usize, al: &Alloc) -> (n: u32)
    requires
        al.wf(),
        al@.ready(),
        fscod < 3,
        af.frmcsnroffst < 64,
        af.frmfsnroffst < 16,
    ensures
        n == block_bits(*af, fscod as int, al@),
        n <= 30000,
{
    if af.frmcsnroffst == 0 && af.frmfsnroffst == 0 {
        return 0;
    }
    let snroffset: i32 = ((af.frmcsnroffst as i32 - 15) * 16 + af.frmfsnroffst as i32) * 4;
    let ghost c = al@;
    let mut g = GroupPos { bap1: 2, bap2: 2, bap4: 1 };
    let mut total: u32 = 0;
    let mut ch: usize = 0;
    while ch < 5
        invariant
            ch <= 5,
            fscod < 3,
            c == al@,
            al.wf(),
            c.ready(),
            snroffset == snr_offset(*af),
            -10000 <= snroffset <= 10000,
            g.ok(),
            (total as int, g) == channel_bits(*af, fscod as int, c, ch as nat),
            total <= 5000 * ch,
        decreases 5 - ch,
    {
        assert(end_ok(c.end[ch as int]));
        assert(c.psd[ch as int] == al.psd@[ch as int]@);
        let bap = allocate(&al.psd[ch], al.end[ch], snroffset, fscod);
        let n = count_mantissa(&bap, 0, al.end[ch], &mut g);
        total = total + n;
        ch = ch + 1;
    }
    let bap = allocate(&al.lfe, 7, snroffset, fscod);
    let n = count_mantissa(&bap, 0, 7, &mut g);
    total + n
}

/// The channels are ready behind block `b`, when those that do not reuse their exponents are.
proof fn lemma_ready(s: Seq<bool>, af: Audfrm, b: int, c0: Channels, c: Channels)
    requires
        0 <= b < 6,
        b > 0 ==> c0.ready(),
        forall|ch: int|
            0 <= ch < 5 && strategy(s, af, b, ch) != 0 ==> {
                &&& end_ok(#[trigger] c.end[ch])
                &&& c.end[ch] <= c.psd[ch].len()
                &&& levels_ok(c.psd[ch])
            },
        forall|ch: int|
            0 <= ch < 5 && strategy(s, af, b, ch) == 0 ==> #[trigger] c.end[ch] == c0.end[ch]
                && c.psd[ch] == c0.psd[ch],
    ensures
        c.ready(),
{
    assert forall|ch: int| 0 <= ch < 5 implies end_ok(#[trigger] c.end[ch]) && c.end[ch]
        <= c.psd[ch].len() && levels_ok(c.psd[ch]) by {
        if strategy(s, af, b, ch) == 0 {
            assert(c.end[ch] == c0.end[ch]);
            if b == 0 {
                bits::lemma_field_bound(s, af.chexp_bit + 5 * ch, 5);
                bits::lemma_two_values();
                alloc_tables::lemma_frm_exp_str(bits::field(s, af.chexp_bit + 5 * ch, 5) as int, 0);
            }
            assert(end_ok(c0.end[ch]));
        }
        assert(end_ok(c.end[ch]));
        assert(levels_ok(c.psd[ch]));
    }
}

/// Reads bandwidths and exponents of all channels, from the bandwidth codes up to the fast gain flag.
/// False if a bandwidth is not valid.
fn read_channels(r: &mut BitReader, af: &Audfrm, block: usize, al: &mut Alloc) -> (ok: bool)
    requires
        block < 6,
        old(r).pos <= usize::MAX - 20000,
        af.chexp_bit <= usize::MAX - 100,
        af.lfeexp_bit <= usize::MAX - 100,
        old(al).wf(),
        block > 0 ==> old(al)@.ready(),
    ensures
        final(r).data@ == old(r).data@,
        ok == bandwidths_ok(old(r).bits(), *af, block as int, old(r).pos as int),
        ok ==> {
            let s = old(r).bits();
            let b = block as int;
            let p2 = old(r).pos as int;
            let p3 = chbwcod_pos(s, *af, b, p2, 5);
            let end = next_ends(s, *af, b, p2, old(al)@.end);
            let p4 = exponent_pos(s, *af, b, p3, end, 5);
            &&& final(r).pos == fgain_pos(s, *af, b, p4)
            &&& final(r).pos <= p2 + 3800
            &&& final(al).wf()
            &&& final(al)@.ready()
            &&& final(al)@.end == end
            &&& final(al)@.psd == next_psd(s, *af, b, p3, end, old(al)@.psd)
            &&& final(al)@.lfe == (if bits::bit(s, af.lfeexp_bit + b) {
                levels_at(s, p4, 1, 7)
            } else {
                old(al)@.lfe
            })
        },
{
    let ghost s = r.bits();
    let ghost b = block as int;
    let ghost c0 = al@;
    let ghost p2 = r.pos as int;
    if !read_bandwidths(r, af, block, &mut al.end) {
        return false;
    }
    let ghost ends = next_ends(s, *af, b, p2, c0.end);
    let ghost p3 = r.pos as int;
    proof {
        assert forall|ch: int| 0 <= ch < 5 implies #[trigger] al.end@[ch] == ends[ch] by {}
        assert forall|ch: int| 0 <= ch < 5 && strategy(s, *af, b, ch) != 0 implies 73
            <= #[trigger] al.end@[ch] <= 253 && al.end@[ch] % 3 == 1 by {}
    }
    read_exponents(r, af, block, &al.end, &mut al.psd, Ghost(ends));
    let mut lr = BitReader::at(r.data, af.lfeexp_bit + block);
    if lr.read_bit() {
        al.lfe = read_levels(r, 1, 7);
    }
    proof {
        let psd = next_psd(s, *af, b, p3, ends, c0.psd);
        assert(al@.end =~= ends);
        assert forall|ch: int| 0 <= ch < 5 implies #[trigger] al@.psd[ch] == psd[ch] by {
            assert(al.psd@[ch]@ == al@.psd[ch]);
        }
        assert(al@.psd =~= psd);
        assert forall|ch: int| 0 <= ch < 5 && strategy(s, *af, b, ch) != 0 implies end_ok(
            #[trigger] al@.end[ch],
        ) && al@.end[ch] <= al@.psd[ch].len() && levels_ok(al@.psd[ch]) by {
            assert(al.psd@[ch]@ == al@.psd[ch]);
            assert(al.end@[ch] == ends[ch]);
        }
        lemma_ready(s, *af, b, c0, al@);
    }
    true
}

/// Walk one audio block from bit position `pos`: the bit offset of its skip-field point, right
/// before the mantissas, and the bit position after the block. `al` carries the exponents from block
/// to block. None on anything outside the subset.
fn walk_block(
    frame: &[u8],
    af: &Audfrm,
    block: usize,
    pos: usize,
    fscod: usize,
    al: &mut Alloc,
) -> (r: Option<(usize, usize)>)
    requires
        block < 6,
        fscod < 3,
        pos <= usize::MAX - 0x1_0000,
        af.chexp_bit <= usize::MAX - 100,
        af.lfeexp_bit <= usize::MAX - 100,
        af.frmcsnroffst < 64,
        af.frmfsnroffst < 16,
        old(al).wf(),
        block > 0 ==> old(al)@.ready(),
    ensures
        r is Some == block_head(bits::bits_of(frame@), *af, block as int, pos as int, old(al)@).ok,
        r matches Some((skip, end)) ==> {
            let h = block_head(bits::bits_of(frame@), *af, block as int, pos as int, old(al)@);
            &&& skip == h.skip
            &&& final(al)@ == h.channels
            &&& end == skip + block_bits(*af, fscod as int, h.channels)
            &&& end <= pos + 34000
            &&& final(al).wf()
            &&& final(al)@.ready()
        },
{
    let mut r = BitReader::at(frame, pos);
    if af.blkswe {
        r.read(5);
    }
    if af.dithflage {
        r.read(5);
    }
    skip_opt(&mut r, 8);  // dynrng
    if read_spx(&mut r, block) {
        return None;
    }
    if !read_channels(&mut r, af, block, al) {
        return None;
    }
    if af.frmfgaincode {
        if r.read_bit() {
            return None;
        }
    }
    skip_opt(&mut r, 10);  // convsnroffst
    let skip_point = r.pos;
    let n = count_block(af, fscod, al);
    Some((skip_point, skip_point + n as usize))
}

/// The walk through the six audio blocks of a frame whose audio frame header stands at bit `b`.
/// None for a frame outside the subset.
pub open spec fn frame_walk(s: Seq<bool>, info: FrameInfo, b: int) -> Option<Walk> {
    if audfrm_ok(s, info, b) && info.fscod == 0 {
        walk(s, audfrm_at(s, info, b), 0, 6)
    } else {
        None
    }
}

/// Once a block leaves the subset no longer walk succeeds.
proof fn lemma_walk_stops(s: Seq<bool>, af: Audfrm, fscod: int, m: nat, n: nat)
    requires
        m <= n,
        walk(s, af, fscod, m) is None,
    ensures
        walk(s, af, fscod, n) is None,
    decreases n,
{
    if m < n {
        lemma_walk_stops(s, af, fscod, m, (n - 1) as nat);
    }
}

/// Walk all 6 audio blocks of a core frame: the per-block skip-field bit offsets and the bit position
/// after the last block (the start of the aux/errorcheck tail). None if unsupported.
pub fn skip_points(frame: &[u8], info: &FrameInfo, bsi_end_bit: usize) -> (r: Option<
    (Vec<usize>, usize),
>)
    requires
        bsi_end_bit <= usize::MAX - 0x10_0000,
    ensures
        r is Some == frame_walk(bits::bits_of(frame@), *info, bsi_end_bit as int) is Some,
        r matches Some((points, end)) ==> {
            let w = frame_walk(bits::bits_of(frame@), *info, bsi_end_bit as int)->0;
            &&& points@.map_values(|p: usize| p as int) == w.points
            &&& points@.len() == 6
            &&& end == w.pos
            &&& end <= bsi_end_bit + 0x10_0000
        },
{
    let af = match parse_audfrm(frame, info, bsi_end_bit) {
        Some(af) => af,
        None => {
            return None;
        },
    };
    if info.fscod != 0 {
        return None;  // not 48 kHz
    }
    let ghost s = bits::bits_of(frame@);
    let mut al = Alloc::new();
    let mut points: Vec<usize> = Vec::with_capacity(6);
    let mut pos = af.block0_bit;
    let mut block: usize = 0;
    assert(points@.map_values(|p: usize| p as int) =~= seq![]);
    while block < 6
        invariant
            block <= 6,
            info.fscod == 0,
            s == bits::bits_of(frame@),
            bsi_end_bit <= usize::MAX - 0x10_0000,
            audfrm_ok(s, *info, bsi_end_bit as int),
            af == audfrm_at(s, *info, bsi_end_bit as int),
            af.lfeexp_bit == af.chexp_bit + 25,
            af.lfeexp_bit <= bsi_end_bit + 300,
            af.frmcsnroffst < 64,
            af.frmfsnroffst < 16,
            pos <= bsi_end_bit + 300 + 34000 * block,
            al.wf(),
            block > 0 ==> al@.ready(),
            points@.len() == block,
            walk(s, af, 0, block as nat) == Some(
                Walk {
                    points: points@.map_values(|p: usize| p as int),
                    pos: pos as int,
                    channels: al@,
                },
            ),
        decreases 6 - block,
    {
        let ghost before = points@.map_values(|p: usize| p as int);
        let ghost points0 = points@;
        match walk_block(frame, &af, block, pos, 0, &mut al) {
            Some((skip, next)) => {
                points.push(skip);
                pos = next;
            },
            None => {
                proof {
                    lemma_walk_stops(s, af, 0, (block + 1) as nat, 6);
                }
                return None;
            },
        }
        assert(points@.map_values(|p: usize| p as int) =~= before.push(points@.last() as int));
        block = block + 1;
    }
    Some((points, pos))
}

/// The audio frame header's skip field enable bit offset (for flipping it to 1).
pub fn skipfld_enable_bit(frame: &[u8], info: &FrameInfo, bsi_end_bit: usize) -> (r: Option<usize>)
    requires
        bsi_end_bit <= usize::MAX - 0x10_0000,
    ensures
        r == (if audfrm_ok(bits::bits_of(frame@), *info, bsi_end_bit as int) {
            Some((bsi_end_bit + 10) as usize)
        } else {
            None
        }),
{
    match parse_audfrm(frame, info, bsi_end_bit) {
        Some(af) => Some(af.skipfld_bit),
        None => None,
    }
}

proof fn lemma_chbwcod_pos(s: Seq<bool>, af: Audfrm, block: int, p: int, ch: nat)
    ensures
        p <= chbwcod_pos(s, af, block, p, ch),
    decreases ch,
{
    if ch > 0 {
        lemma_chbwcod_pos(s, af, block, p, (ch - 1) as nat);
    }
}

proof fn lemma_exponent_pos(s: Seq<bool>, af: Audfrm, block: int, p: int, end: Seq<int>, ch: nat)
    requires
        ch <= 5,
        forall|k: int|
            0 <= k < 5 && strategy(s, af, block, k) != 0 ==> #[trigger] end[k] >= 37,
    ensures
        p <= exponent_pos(s, af, block, p, end, ch),
    decreases ch,
{
    if ch > 0 {
        lemma_exponent_pos(s, af, block, p, end, (ch - 1) as nat);
        if strategy(s, af, block, ch - 1) != 0 {
            assert(end[ch - 1] >= 37);
        }
    }
}

proof fn lemma_block_head(s: Seq<bool>, af: Audfrm, block: int, pos: int, c: Channels)
    ensures
        pos < block_head(s, af, block, pos, c).skip,
{
    let p1 = spx_pos(s, af, pos);
    let p2 = bandwidth_pos(s, block, p1);
    let p3 = chbwcod_pos(s, af, block, p2, 5);
    let end = next_ends(s, af, block, p2, c.end);
    lemma_chbwcod_pos(s, af, block, p2, 5);
    assert forall|k: int| 0 <= k < 5 && strategy(s, af, block, k) != 0 implies #[trigger] end[k]
        >= 37 by {}
    lemma_exponent_pos(s, af, block, p3, end, 5);
}

proof fn lemma_block_bits(af: Audfrm, fscod: int, c: Channels, n: nat)
    ensures
        channel_bits(af, fscod, c, n).0 >= 0,
        block_bits(af, fscod, c) >= channel_bits(af, fscod, c, n).0 || n != 5 || (af.frmcsnroffst
            == 0 && af.frmfsnroffst == 0),
    decreases n,
{
    if n > 0 {
        lemma_block_bits(af, fscod, c, (n - 1) as nat);
    }
}

proof fn lemma_walk_points(s: Seq<bool>, af: Audfrm, fscod: int, n: nat)
    ensures
        walk(s, af, fscod, n) matches Some(w) ==> {
            &&& w.points.len() == n
            &&& forall|i: int, j: int| 0 <= i < j < n ==> #[trigger] w.points[i] < #[trigger] w.points[j]
            &&& forall|i: int| 0 <= i < n ==> af.block0_bit < #[trigger] w.points[i] <= w.pos
            &&& af.block0_bit <= w.pos
        },
    decreases n,
{
    if n > 0 {
        lemma_walk_points(s, af, fscod, (n - 1) as nat);
        if let Some(w) = walk(s, af, fscod, (n - 1) as nat) {
            let h = block_head(s, af, n - 1, w.pos, w.channels);
            lemma_block_head(s, af, n - 1, w.pos, w.channels);
            lemma_block_bits(af, fscod, h.channels, 5);
        }
    }
}

/// The skip field points stand behind the audio frame header's skip field enable bit, one behind the
/// other, and in front of the end of the blocks.
pub proof fn law_points_increase(s: Seq<bool>, info: FrameInfo, b: int)
    requires
        0 <= b <= usize::MAX - 0x10_0000,
    ensures
        frame_walk(s, info, b) matches Some(w) ==> {
            &&& w.points.len() == 6
            &&& forall|i: int, j: int| 0 <= i < j < 6 ==> #[trigger] w.points[i] < #[trigger] w.points[j]
            &&& forall|i: int| 0 <= i < 6 ==> b + 10 < #[trigger] w.points[i] <= w.pos
        },
{
    let af = audfrm_at(s, info, b);
    lemma_walk_points(s, af, 0, 6);
    lemma_coupling_bound(s, b + 13, 5);
    lemma_blkstrt_bound(info.size as int);
}

} // verus!
