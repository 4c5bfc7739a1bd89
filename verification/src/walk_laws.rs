//! What the bit allocation of the audio blocks owes to the numbers it is given: SNR offsets, bands,
//! exponents and bit allocation pointers.

use crate::alloc_tables;
use crate::eac3_audblk;
use crate::eac3_audblk::{Audfrm, GroupPos};
use vstd::prelude::*;

verus! {

// ------------------------------------------------------------------ SNR offsets

/// A coarse step is worth 64 and a fine step 4, over the whole range of both.
pub proof fn law_snr_steps(a: Audfrm, b: Audfrm)
    ensures
        eac3_audblk::snr_offset(b) - eac3_audblk::snr_offset(a) == 64 * (b.frmcsnroffst
            - a.frmcsnroffst) + 4 * (b.frmfsnroffst - a.frmfsnroffst),
{
}

/// The SNR offset is zero at the coarse offset 15 with no fine offset, and nowhere else.
pub proof fn law_snr_zero(a: Audfrm)
    requires
        a.frmfsnroffst < 16,
    ensures
        eac3_audblk::snr_offset(a) == 0 <==> a.frmcsnroffst == 15 && a.frmfsnroffst == 0,
        a.frmcsnroffst < 15 ==> eac3_audblk::snr_offset(a) < 0,
        a.frmcsnroffst >= 15 && a.frmfsnroffst > 0 ==> eac3_audblk::snr_offset(a) > 0,
{
}

/// The SNR offset rises with the offsets: no two pairs of them have the same.
pub proof fn law_snr_rises(a: Audfrm, b: Audfrm)
    requires
        a.frmfsnroffst < 16,
        b.frmfsnroffst < 16,
        a.frmcsnroffst < b.frmcsnroffst || (a.frmcsnroffst == b.frmcsnroffst && a.frmfsnroffst
            < b.frmfsnroffst),
    ensures
        eac3_audblk::snr_offset(a) < eac3_audblk::snr_offset(b),
{
}

/// The masking level stays within the range of the allocation when the offset is taken off it.
pub open spec fn unclamped(mask: int, snroffset: int) -> bool {
    0 <= mask - snroffset + 2048 < 8192
}

proof fn lemma_masked_value(mask: int, snroffset: int)
    requires
        unclamped(mask, snroffset),
    ensures
        eac3_audblk::masked_level(mask, snroffset) == (mask - snroffset) / 32 * 32,
{
    let x = mask - snroffset + 2048;
    assert(0 <= x / 32 < 256);
    assert(x / 32 % 256 == x / 32);
    assert(x / 32 == (mask - snroffset) / 32 + 64);
}

/// Within the range, what a level is compared with is the masking level less the SNR offset, rounded
/// down to a multiple of 32.
pub proof fn law_masked_level(mask: int, snroffset: int)
    requires
        unclamped(mask, snroffset),
    ensures
        mask - snroffset - 32 < eac3_audblk::masked_level(mask, snroffset) <= mask - snroffset,
        eac3_audblk::masked_level(mask, snroffset) % 32 == 0,
{
    lemma_masked_value(mask, snroffset);
}

/// Below the range a level is compared with the floor.
pub proof fn law_masked_floor(mask: int, snroffset: int)
    requires
        mask - snroffset + 2048 < 0,
    ensures
        eac3_audblk::masked_level(mask, snroffset) == -2048,
{
}

/// Above the range the comparison starts again from the floor.
pub proof fn law_masked_wraps(mask: int, snroffset: int)
    requires
        mask - snroffset + 2048 >= 0,
    ensures
        eac3_audblk::masked_level(mask + 8192, snroffset) == eac3_audblk::masked_level(mask, snroffset),
        -2048 <= eac3_audblk::masked_level(mask, snroffset) < 6144,
{
    let x = mask - snroffset + 2048;
    assert((x + 8192) / 32 == x / 32 + 256);
    assert((x / 32 + 256) % 256 == x / 32 % 256);
}

/// Each 32 of SNR offset lower what a level is compared with by exactly 32.
pub proof fn law_masked_steps(mask: int, snroffset: int, n: int)
    requires
        0 <= n,
        unclamped(mask, snroffset),
        unclamped(mask, snroffset + 32 * n),
    ensures
        eac3_audblk::masked_level(mask, snroffset + 32 * n) == eac3_audblk::masked_level(mask, snroffset)
            - 32 * n,
{
    let x = mask - snroffset;
    lemma_masked_value(mask, snroffset);
    lemma_masked_value(mask, snroffset + 32 * n);
    assert(mask - (snroffset + 32 * n) == x - 32 * n);
    assert((x - 32 * n) / 32 == x / 32 - n);
}

// ------------------------------------------------------------------ bit allocation pointers

/// The pointer of each distance above the mask, in steps of 32: none at zero, then five, two, three, two
/// and two distances for the pointers from 1 to 5, four for each from 6 to 13, eight for 14, and the rest
/// for 15.
pub open spec fn pointer(a: int) -> int {
    if a <= 0 {
        0
    } else if a < 6 {
        1
    } else if a < 8 {
        2
    } else if a < 11 {
        3
    } else if a < 13 {
        4
    } else if a < 15 {
        5
    } else if a < 47 {
        6 + (a - 15) / 4
    } else if a < 55 {
        14
    } else {
        15
    }
}

pub proof fn law_pointer(a: int)
    requires
        0 <= a < 64,
    ensures
        alloc_tables::baptab(a) == pointer(a),
{
    reveal(alloc_tables::baptab);
}

/// The pointer of a bin is that of its level above the mask, where the mask is in range.
pub proof fn law_bin_pointer(psd: Seq<i32>, bp: Seq<i32>, next: int, fscod: int, snroffset: int, i: int)
    requires
        unclamped(
            eac3_audblk::mask_level(bp, next, fscod, alloc_tables::masktab(i) as nat),
            snroffset,
        ),
    ensures
        ({
            let mask = eac3_audblk::mask_level(bp, next, fscod, alloc_tables::masktab(i) as nat);
            let above = psd[i] - (mask - snroffset) / 32 * 32;
            eac3_audblk::bap_of(psd, bp, next, fscod, snroffset, i) == pointer(above / 32)
        }),
{
    let mask = eac3_audblk::mask_level(bp, next, fscod, alloc_tables::masktab(i) as nat);
    let steps = (psd[i] - eac3_audblk::masked_level(mask, snroffset)) / 32;
    lemma_masked_value(mask, snroffset);
    law_pointer(
        if steps < 0 {
            0
        } else if steps > 63 {
            63
        } else {
            steps
        },
    );
}

proof fn lemma_pointer_order(a: int, b: int)
    requires
        a <= b,
    ensures
        pointer(a) <= pointer(b),
{
}

proof fn lemma_distance(level: int, x: int, y: int)
    requires
        y <= x,
    ensures
        (level - x / 32 * 32) / 32 <= (level - y / 32 * 32) / 32,
{
}

/// A greater SNR offset does not lower the pointer of a bin, as long as its mask is in range.
pub proof fn law_pointer_rises(
    psd: Seq<i32>,
    bp: Seq<i32>,
    next: int,
    fscod: int,
    snr: int,
    more: int,
    i: int,
)
    requires
        snr <= more,
        unclamped(
            eac3_audblk::mask_level(bp, next, fscod, alloc_tables::masktab(i) as nat),
            snr,
        ),
        unclamped(
            eac3_audblk::mask_level(bp, next, fscod, alloc_tables::masktab(i) as nat),
            more,
        ),
    ensures
        eac3_audblk::bap_of(psd, bp, next, fscod, snr, i) <= eac3_audblk::bap_of(
            psd,
            bp,
            next,
            fscod,
            more,
            i,
        ),
{
    let mask = eac3_audblk::mask_level(bp, next, fscod, alloc_tables::masktab(i) as nat);
    law_bin_pointer(psd, bp, next, fscod, snr, i);
    law_bin_pointer(psd, bp, next, fscod, more, i);
    lemma_distance(psd[i] as int, mask - snr, mask - more);
    lemma_pointer_order(
        (psd[i] - (mask - snr) / 32 * 32) / 32,
        (psd[i] - (mask - more) / 32 * 32) / 32,
    );
}

// ------------------------------------------------------------------ mantissa bits

/// What a mantissa takes, in sixths of a bit: a group of three with pointer 1 takes five bits, one with
/// pointer 2 seven, a pair with pointer 4 seven; the others take 3 bits, one less than the pointer from
/// 5 on, and 14 and 16 bits at the top.
pub open spec fn cost(b: u8) -> int {
    if b == 0 {
        0
    } else if b == 1 {
        10
    } else if b == 2 {
        14
    } else if b == 3 {
        18
    } else if b == 4 {
        21
    } else if b < 14 {
        6 * (b - 1)
    } else if b == 14 {
        84
    } else {
        96
    }
}

pub open spec fn total_cost(s: Seq<u8>) -> int
    decreases s.len(),
{
    if s.len() == 0 {
        0
    } else {
        total_cost(s.drop_last()) + cost(s.last())
    }
}

/// What of groups that are not full yet has been paid for.
pub open spec fn pending(g: GroupPos) -> int {
    10 * g.bap1 + 14 * g.bap2 + 21 * g.bap4
}

proof fn lemma_cost(s: Seq<u8>)
    requires
        forall|i: int| 0 <= i < s.len() ==> #[trigger] s[i] < 16,
    ensures
        total_cost(s) == 6 * eac3_audblk::single_bits(s) + 10 * eac3_audblk::count_of(s, 1) + 14
            * eac3_audblk::count_of(s, 2) + 18 * eac3_audblk::count_of(s, 3) + 21
            * eac3_audblk::count_of(s, 4),
    decreases s.len(),
{
    if s.len() > 0 {
        let t = s.drop_last();
        assert forall|i: int| 0 <= i < t.len() implies #[trigger] t[i] < 16 by {
            assert(t[i] == s[i]);
        }
        lemma_cost(t);
        assert(s[s.len() - 1] < 16);
        law_single_width(s.last() as int);
    }
}

/// Pointers from 5 to 13 code a mantissa in one bit less than the pointer, 14 and 15 in 14 and 16 bits,
/// and 0 in none.
pub proof fn law_single_width(b: int)
    requires
        0 <= b < 16,
    ensures
        b == 0 ==> alloc_tables::bits_to_read(b) == 0,
        5 <= b <= 13 ==> alloc_tables::bits_to_read(b) == b - 1,
        b == 14 ==> alloc_tables::bits_to_read(b) == 14,
        b == 15 ==> alloc_tables::bits_to_read(b) == 16,
{
    reveal(alloc_tables::bits_to_read);
}

/// Mantissa bits are neither lost nor gained: the bits counted, and what is pending behind them, are what
/// was pending before and what each mantissa takes.
pub proof fn law_mantissa_cost(s: Seq<u8>, g: GroupPos)
    requires
        g.ok(),
        forall|i: int| 0 <= i < s.len() ==> #[trigger] s[i] < 16,
    ensures
        6 * eac3_audblk::mantissa_bits(s, g) + pending(eac3_audblk::groups_after(s, g)) == pending(g)
            + total_cost(s),
        eac3_audblk::groups_after(s, g).ok(),
{
    lemma_cost(s);
}

proof fn lemma_cost_order(a: Seq<u8>, b: Seq<u8>)
    requires
        a.len() == b.len(),
        forall|i: int| 0 <= i < a.len() ==> (#[trigger] a[i]) <= b[i],
        forall|i: int| 0 <= i < b.len() ==> (#[trigger] b[i]) < 16,
    ensures
        total_cost(a) <= total_cost(b),
    decreases a.len(),
{
    if a.len() > 0 {
        let k = a.len() - 1;
        assert(a[k] <= b[k]);
        assert(b[k] < 16);
        assert(cost(a[k]) <= cost(b[k]));
        let x = a.drop_last();
        let y = b.drop_last();
        assert forall|i: int| 0 <= i < x.len() implies (#[trigger] x[i]) <= y[i] by {
            assert(a[i] <= b[i]);
        }
        assert forall|i: int| 0 <= i < y.len() implies (#[trigger] y[i]) < 16 by {
            assert(b[i] < 16);
        }
        lemma_cost_order(x, y);
    }
}

/// The masks of all bins of a channel are in range.
pub open spec fn channel_unclamped(psd: Seq<i32>, end: int, fscod: int, snr: int) -> bool {
    let bp = eac3_audblk::band_levels(psd, eac3_audblk::band_count(end));
    let next = eac3_audblk::next_level(psd, end);
    forall|i: int|
        0 <= i < end ==> #[trigger] unclamped(
            eac3_audblk::mask_level(bp, next, fscod, alloc_tables::masktab(i) as nat),
            snr,
        )
}

pub proof fn lemma_pointer_bound(
    psd: Seq<i32>,
    bp: Seq<i32>,
    next: int,
    fscod: int,
    snr: int,
    i: int,
)
    ensures
        0 <= eac3_audblk::bap_of(psd, bp, next, fscod, snr, i) < 16,
{
    let mask = eac3_audblk::mask_level(bp, next, fscod, alloc_tables::masktab(i) as nat);
    let steps = (psd[i] - eac3_audblk::masked_level(mask, snr)) / 32;
    alloc_tables::lemma_baptab(
        if steps < 0 {
            0
        } else if steps > 63 {
            63
        } else {
            steps
        },
    );
}

/// A greater SNR offset does not lower a pointer of a channel whose masks are in range, nor what its
/// mantissas take; so the bits that are counted fall by no more than what the groups had pending.
pub proof fn law_channel_rises(psd: Seq<i32>, end: int, fscod: int, snr: int, more: int, g: GroupPos)
    requires
        0 <= end <= 256,
        snr <= more,
        channel_unclamped(psd, end, fscod, snr),
        channel_unclamped(psd, end, fscod, more),
        g.ok(),
    ensures
        ({
            let a = eac3_audblk::baps(psd, end, fscod, snr).subrange(0, end);
            let b = eac3_audblk::baps(psd, end, fscod, more).subrange(0, end);
            &&& forall|i: int| 0 <= i < end ==> (#[trigger] a[i]) <= b[i]
            &&& total_cost(a) <= total_cost(b)
            &&& 6 * eac3_audblk::mantissa_bits(a, g) + pending(eac3_audblk::groups_after(a, g)) <= 6
                * eac3_audblk::mantissa_bits(b, g) + pending(eac3_audblk::groups_after(b, g))
        }),
{
    let bp = eac3_audblk::band_levels(psd, eac3_audblk::band_count(end));
    let next = eac3_audblk::next_level(psd, end);
    let a = eac3_audblk::baps(psd, end, fscod, snr).subrange(0, end);
    let b = eac3_audblk::baps(psd, end, fscod, more).subrange(0, end);
    assert forall|i: int| 0 <= i < end implies (#[trigger] a[i]) <= b[i] && b[i] < 16 by {
        let mask = eac3_audblk::mask_level(bp, next, fscod, alloc_tables::masktab(i) as nat);
        assert(unclamped(mask, snr));
        assert(unclamped(mask, more));
        law_pointer_rises(psd, bp, next, fscod, snr, more, i);
        lemma_pointer_bound(psd, bp, next, fscod, snr, i);
        lemma_pointer_bound(psd, bp, next, fscod, more, i);
    }
    assert forall|i: int| 0 <= i < end implies #[trigger] a[i] < 16 by {
        assert(a[i] <= b[i] && b[i] < 16);
    }
    assert forall|i: int| 0 <= i < end implies #[trigger] b[i] < 16 by {
        assert(a[i] <= b[i] && b[i] < 16);
    }
    lemma_cost_order(a, b);
    law_mantissa_cost(a, g);
    law_mantissa_cost(b, g);
}

/// A greater coarse SNR offset does not lower what the mantissas of a channel take.
pub proof fn law_coarse_rises(a: Audfrm, b: Audfrm, psd: Seq<i32>, end: int, fscod: int)
    requires
        0 <= end <= 256,
        a.frmcsnroffst <= b.frmcsnroffst,
        a.frmfsnroffst == b.frmfsnroffst,
        channel_unclamped(psd, end, fscod, eac3_audblk::snr_offset(a)),
        channel_unclamped(psd, end, fscod, eac3_audblk::snr_offset(b)),
    ensures
        ({
            let x = eac3_audblk::baps(psd, end, fscod, eac3_audblk::snr_offset(a)).subrange(0, end);
            let y = eac3_audblk::baps(psd, end, fscod, eac3_audblk::snr_offset(b)).subrange(0, end);
            &&& forall|i: int| 0 <= i < end ==> (#[trigger] x[i]) <= y[i]
            &&& total_cost(x) <= total_cost(y)
        }),
{
    law_snr_steps(a, b);
    law_channel_rises(
        psd,
        end,
        fscod,
        eac3_audblk::snr_offset(a),
        eac3_audblk::snr_offset(b),
        GroupPos { bap1: 2, bap2: 2, bap4: 1 },
    );
}

// ------------------------------------------------------------------ bands

/// Bands are one bin wide below bin 28, then three, six, twelve and twenty-four.
pub open spec fn band_width(k: int) -> int {
    if k < 28 {
        1
    } else if k < 35 {
        3
    } else if k < 41 {
        6
    } else if k < 45 {
        12
    } else {
        24
    }
}

/// The bands follow each other from bin 0 without a gap, each as wide as it should be.
pub proof fn law_band_widths(k: int)
    requires
        0 <= k < 50,
    ensures
        alloc_tables::bndtab(k) == eac3_audblk::band_start(k) + band_width(k),
        eac3_audblk::band_start(k + 1) == alloc_tables::bndtab(k),
        eac3_audblk::band_start(0) == 0,
{
    reveal(alloc_tables::bndtab);
}

/// A bin belongs to the band whose bins are around it.
pub proof fn law_bin_band(i: int)
    requires
        0 <= i < 253,
    ensures
        0 <= alloc_tables::masktab(i) < 50,
        eac3_audblk::band_start(alloc_tables::masktab(i)) <= i < alloc_tables::bndtab(
            alloc_tables::masktab(i),
        ),
{
    reveal(alloc_tables::bndtab);
    reveal(alloc_tables::masktab);
}

/// The bands that the bins below `end` reach into are those that start below it.
pub proof fn law_band_count(end: int, k: int)
    requires
        1 <= end <= 253,
        0 <= k < 50,
    ensures
        k < eac3_audblk::band_count(end) <==> eac3_audblk::band_start(k) < end,
{
    let last = alloc_tables::masktab(end - 1);
    law_bin_band(end - 1);
    law_band_widths(last);
    if k <= last {
        if k > 0 {
            alloc_tables::lemma_bands_mono(k - 1, last);
            if k < last {
                alloc_tables::lemma_bands_mono(k - 1, last - 1);
            }
        }
    } else {
        alloc_tables::lemma_bands_mono(last, k - 1);
    }
}

// ------------------------------------------------------------------ exponent strategies

/// Whether block `block` has new exponents, by the frame exponent strategy code: the first block always
/// has, and the others where their bit of the code is set, the last block's being the lowest.
pub open spec fn fresh(code: int, block: int) -> bool {
    block == 0 || (block == 5 && code % 2 == 1) || (block == 4 && code / 2 % 2 == 1) || (block == 3 && code
        / 4 % 2 == 1) || (block == 2 && code / 8 % 2 == 1) || (block == 1 && code / 16 % 2 == 1)
}

/// How many blocks use the exponents that block `block` brings.
pub open spec fn span(code: int, block: int) -> nat
    decreases 6 - block,
{
    if block >= 5 || fresh(code, block + 1) {
        1
    } else {
        1 + span(code, block + 1)
    }
}

/// A block that brings no exponents reuses those before it; one that does codes them the finer, the more
/// blocks use them: for each bin where four or more do, for pairs of bins where two or three do, and for
/// four bins at a time where it is the only one.
pub proof fn law_strategy(code: int, block: int)
    requires
        0 <= code < 32,
        0 <= block < 6,
    ensures
        alloc_tables::frm_exp_str(code, block) == if !fresh(code, block) {
            0int
        } else if span(code, block) >= 4 {
            1
        } else if span(code, block) >= 2 {
            2
        } else {
            3
        },
{
    reveal(alloc_tables::frm_exp_str);
    reveal_with_fuel(span, 7);
}

/// A difference of exponents stands for one, two or four bins.
pub proof fn law_group_size(strat: int)
    requires
        1 <= strat <= 3,
    ensures
        eac3_audblk::group_size(1) == 1,
        eac3_audblk::group_size(2) == 2,
        eac3_audblk::group_size(3) == 4,
{
}

/// A channel has as many groups of three differences as its bins behind the first need, and no more: at
/// least that many bins get an exponent, and one group less would leave a bin without one.
pub proof fn law_group_count(strat: int, code: int)
    requires
        1 <= strat <= 3,
        0 <= code <= 60,
    ensures
        ({
            let end = (code + 12) * 3 + 37;
            let n = eac3_audblk::group_count(strat, end);
            let bins = 3 * eac3_audblk::group_size(strat);
            &&& 1 + bins * n >= end
            &&& 1 + bins * (n - 1) < end
        }),
        eac3_audblk::group_count(1, 7) == 2,
{
    let end = (code + 12) * 3 + 37;
    let n = eac3_audblk::group_count(strat, end);
    let bins = 3 * eac3_audblk::group_size(strat);
    assert(bins == if strat == 1 {
        3nat
    } else if strat == 2 {
        6
    } else {
        12
    });
    assert(bins * (n - 1) == bins * n - bins) by (nonlinear_arith);
    assert(bins == 3 ==> bins * n == 3 * n);
    assert(bins == 6 ==> bins * n == 6 * n);
    assert(bins == 12 ==> bins * n == 12 * n);
}

// ------------------------------------------------------------------ exponents and levels

/// A group code spells three differences from -2 to 2 in base 5.
pub open spec fn group_code(d: Seq<int>, g: int) -> int {
    25 * (d[3 * g] + 2) + 5 * (d[3 * g + 1] + 2) + (d[3 * g + 2] + 2)
}

/// The group codes of differences from -2 to 2.
pub open spec fn codes_for(codes: Seq<u8>, d: Seq<int>) -> bool {
    &&& d.len() == 3 * codes.len()
    &&& forall|m: int| 0 <= m < d.len() ==> -2 <= #[trigger] d[m] <= 2
    &&& forall|g: int| 0 <= g < codes.len() ==> #[trigger] codes[g] == group_code(d, g)
}

/// The differences that were put into group codes come out of them, in order.
pub proof fn law_differences(codes: Seq<u8>, d: Seq<int>, m: int)
    requires
        codes_for(codes, d),
        0 <= m < d.len(),
    ensures
        eac3_audblk::exp_diff(codes, m) == d[m],
{
    let g = m / 3;
    assert(codes[g] == group_code(d, g));
    assert(-2 <= d[3 * g] <= 2);
    assert(-2 <= d[3 * g + 1] <= 2);
    assert(-2 <= d[3 * g + 2] <= 2);
    let x = d[3 * g] + 2;
    let y = d[3 * g + 1] + 2;
    let z = d[3 * g + 2] + 2;
    assert(25 * x + 5 * y + z == codes[g]);
    assert((25 * x + 5 * y + z) / 25 == x);
    assert((25 * x + 5 * y + z) % 25 == 5 * y + z);
    assert((5 * y + z) / 5 == y);
    assert((25 * x + 5 * y + z) % 5 == z);
}

proof fn lemma_abs_exp(first: int, codes: Seq<u8>, d: Seq<int>, m: nat)
    requires
        codes_for(codes, d),
        m <= d.len(),
    ensures
        first - 2 * m <= eac3_audblk::abs_exp(first, codes, m) <= first + 2 * m,
    decreases m,
{
    if m > 0 {
        lemma_abs_exp(first, codes, d, (m - 1) as nat);
        law_differences(codes, d, m - 1);
        assert(-2 <= d[m - 1] <= 2);
    }
}

/// The levels of a channel start 128 below 3072 for each unit of the first exponent; from a bin to the
/// next the level falls by 128 for each unit of the difference of exponents, where a new one starts, and
/// stays otherwise.
pub proof fn law_levels(first: int, codes: Seq<u8>, d: Seq<int>, grp: nat, i: int)
    requires
        0 <= first < 16,
        codes.len() <= 84,
        codes_for(codes, d),
        1 <= grp <= 4,
        0 <= i < 3 * grp * codes.len(),
    ensures
        ({
            let psd = eac3_audblk::psd_of(first, codes, grp);
            &&& psd.len() == 1 + 3 * grp * codes.len()
            &&& psd[0] == 3072 - 128 * first
            &&& psd[i + 1] == psd[i] - (if i % grp as int == 0 {
                128 * d[i / grp as int]
            } else {
                0
            })
        }),
{
    let g = grp as int;
    let n = codes.len() as int;
    let m = i / g;
    assert(3 * grp * codes.len() == g * (3 * n)) by (nonlinear_arith)
        requires
            g == grp,
            n == codes.len(),
    ;
    assert(0 <= m < 3 * n) by (nonlinear_arith)
        requires
            m == i / g,
            0 <= i < g * (3 * n),
            g >= 1,
    ;
    lemma_abs_exp(first, codes, d, m as nat);
    lemma_abs_exp(first, codes, d, (m + 1) as nat);
    law_differences(codes, d, m);
    assert(eac3_audblk::exponent(first, codes, grp, i + 1) == eac3_audblk::abs_exp(
        first,
        codes,
        (m + 1) as nat,
    ));
    if i > 0 {
        if i % g == 0 {
            assert((i - 1) / g == m - 1) by (nonlinear_arith)
                requires
                    i % g == 0,
                    m == i / g,
                    g >= 1,
            ;
        } else {
            assert((i - 1) / g == m) by (nonlinear_arith)
                requires
                    i % g != 0,
                    m == i / g,
                    g >= 1,
                    i > 0,
            ;
        }
    } else {
        assert(m == 0);
        assert(0int % g == 0) by (nonlinear_arith)
            requires
                g >= 1,
        ;
    }
}

/// The distance of two levels, halved, from which their sum is less than `v` above the greater one.
pub open spec fn reach(v: int) -> int {
    seq![
        210int, 178, 159, 145, 134, 126, 118, 112, 106, 101, 96, 92, 88, 84, 81, 78,
        75, 72, 69, 66, 64, 61, 59, 57, 55, 53, 51, 49, 47, 45, 43, 42,
        40, 38, 37, 35, 33, 32, 30, 29, 28, 26, 25, 24, 22, 21, 20, 18,
        17, 16, 15, 14, 12, 11, 10, 9, 8, 7, 6, 5, 4, 3, 2, 1,
    ][v - 1]
}

/// The sum of two levels does not depend on their order, moves with them, doubles a level for 64, and is
/// `v` or more above the greater one exactly as long as the levels are near enough.
pub proof fn law_level_sum(a: int, b: int, c: int, v: int)
    requires
        1 <= v <= 64,
    ensures
        eac3_audblk::level_sum(a, b) == eac3_audblk::level_sum(b, a),
        eac3_audblk::level_sum(a + c, b + c) == eac3_audblk::level_sum(a, b) + c,
        eac3_audblk::level_sum(a, a) == a + 64,
        a >= b ==> a <= eac3_audblk::level_sum(a, b) <= a + 64,
        a >= b ==> (eac3_audblk::level_sum(a, b) >= a + v <==> (a - b) / 2 < reach(v)),
{
    let d = if a >= b {
        (a - b) / 2
    } else {
        (b - a) / 2
    };
    let i = if d <= 255 {
        d
    } else {
        255
    };
    lemma_latab(i, v);
    lemma_latab_range(i);
    lemma_latab_range(0);
    lemma_latab(0, 64);
}

proof fn lemma_latab_range(i: int)
    requires
        0 <= i < 256,
    ensures
        0 <= alloc_tables::latab(i) <= 64,
        i == 0 ==> alloc_tables::latab(i) == 64,
        i == 255 ==> alloc_tables::latab(i) == 0,
{
    reveal(alloc_tables::latab);
}

#[verifier::spinoff_prover]
#[verifier::rlimit(60)]
proof fn lemma_latab(i: int, v: int)
    requires
        0 <= i < 256,
        1 <= v <= 64,
    ensures
        alloc_tables::latab(i) >= v <==> i < reach(v),
        reach(v) <= 255,
{
    reveal(alloc_tables::latab);
}

/// The level of a run of bins is at least that of each of them, and that of one bin is its own.
pub proof fn law_run_level(psd: Seq<i32>, lo: int, hi: int, i: int)
    requires
        0 <= lo <= i < hi <= psd.len(),
    ensures
        eac3_audblk::fold_psd(psd, lo, hi) >= psd[i],
        hi == lo + 1 ==> eac3_audblk::fold_psd(psd, lo, hi) == psd[lo],
        hi > lo + 1 ==> eac3_audblk::fold_psd(psd, lo, hi) == eac3_audblk::level_sum(
            eac3_audblk::fold_psd(psd, lo, hi - 1),
            psd[hi - 1] as int,
        ),
    decreases hi - lo,
{
    if hi > lo + 1 {
        let before = eac3_audblk::fold_psd(psd, lo, hi - 1);
        let last = psd[hi - 1] as int;
        law_level_sum(before, last, 0, 1);
        law_level_sum(last, before, 0, 1);
        if i < hi - 1 {
            law_run_level(psd, lo, hi - 1, i);
        }
    }
}

/// The level of a band covers its bins that have exponents: it is at least that of each.
pub proof fn law_band_level(psd: Seq<i32>, i: int)
    requires
        0 <= i < 253,
        i < psd.len(),
    ensures
        eac3_audblk::band_level(psd, alloc_tables::masktab(i)) >= psd[i],
        i < 28 ==> eac3_audblk::band_level(psd, i) == psd[i],
{
    let k = alloc_tables::masktab(i);
    law_bin_band(i);
    law_band_widths(k);
    let hi = if alloc_tables::bndtab(k) <= psd.len() {
        alloc_tables::bndtab(k)
    } else {
        psd.len() as int
    };
    if k > 0 {
        alloc_tables::lemma_bands_mono(k - 1, k - 1);
    }
    law_run_level(psd, eac3_audblk::band_start(k), hi, i);
    if i < 28 {
        lemma_low_bands(i);
        lemma_low_bands(k);
    }
}

proof fn lemma_low_bands(i: int)
    requires
        0 <= i < 28,
    ensures
        alloc_tables::masktab(i) == i,
        eac3_audblk::band_start(i) == i,
        alloc_tables::bndtab(i) == i + 1,
{
    reveal(alloc_tables::bndtab);
    reveal(alloc_tables::masktab);
}

/// The level behind the last band of a channel is that of the band that starts there, or zero where no
/// bin of it has an exponent.
pub proof fn law_next_level(psd: Seq<i32>, end: int)
    requires
        1 <= end <= 253,
    ensures
        ({
            let k = eac3_audblk::band_count(end) as int;
            let start = alloc_tables::bndtab(alloc_tables::masktab(end - 1));
            &&& start < 253 && start < psd.len() ==> eac3_audblk::next_level(psd, end)
                == eac3_audblk::band_level(psd, k) && eac3_audblk::band_start(k) == start
            &&& start >= psd.len() ==> eac3_audblk::next_level(psd, end) == 0
            &&& start == 253 ==> eac3_audblk::next_level(psd, end) == 0
        }),
{
    let last = alloc_tables::masktab(end - 1);
    law_bin_band(end - 1);
    law_band_widths(last);
    alloc_tables::lemma_bands();
    if last < 49 {
        alloc_tables::lemma_bands_mono(last + 1, 49);
        law_band_widths(last + 1);
    }
}

// ------------------------------------------------------------------ masking

/// A leak is the band's level less its gain before `begin`; from there on it is the greatest of what the
/// bands from the one before `begin` on leave of theirs, each less `decay` for every band in between.
pub proof fn law_leak(bp: Seq<i32>, gain: int, decay: int, begin: int, bin: nat, j: int)
    requires
        1 <= begin,
        bin < begin ==> j == bin,
        bin >= begin ==> begin - 1 <= j <= bin,
    ensures
        eac3_audblk::leak(bp, gain, decay, begin, bin) >= bp[j] - gain - decay * (bin - j),
        exists|k: int|
            k <= bin && (bin < begin ==> k == bin) && (bin >= begin ==> begin - 1 <= k)
                && eac3_audblk::leak(bp, gain, decay, begin, bin) == #[trigger] bp[k] - gain - decay * (bin
                - k),
    decreases bin,
{
    assert(decay * (bin - bin) == 0) by (nonlinear_arith);
    assert(bp[bin as int] == bp[bin as int]);
    if bin >= begin {
        let before = (bin - 1) as nat;
        let i = if j < bin {
            j
        } else {
            bin - 1
        };
        law_leak(bp, gain, decay, begin, before, if bin == begin {
            before as int
        } else {
            i
        });
        let k = choose|k: int|
            k <= before && (before < begin ==> k == before) && (before >= begin ==> begin - 1 <= k)
                && eac3_audblk::leak(bp, gain, decay, begin, before) == #[trigger] bp[k] - gain - decay
                * (before - k);
        assert(decay * (bin - k) == decay * (before - k) + decay) by (nonlinear_arith)
            requires
                bin == before + 1,
        ;
        assert(decay * (bin - j) == decay * (before - j) + decay) by (nonlinear_arith)
            requires
                bin == before + 1,
        ;
        if eac3_audblk::leak(bp, gain, decay, begin, bin) != bp[bin as int] - gain {
            assert(eac3_audblk::leak(bp, gain, decay, begin, bin) == bp[k] - gain - decay * (bin - k));
        } else {
            assert(eac3_audblk::leak(bp, gain, decay, begin, bin) == bp[bin as int] - gain - decay * (bin
                - bin));
        }
    }
}

/// The leaks start to decay behind the first band from 2 on that the next one does not fall below: the
/// bands in front of it fall from one to the next.
pub proof fn law_leak_begin(bp: Seq<i32>, k: int)
    requires
        bp.len() > 7,
    ensures
        ({
            let begin = eac3_audblk::leak_begin(bp, 2);
            &&& 3 <= begin <= 7
            &&& begin < 7 ==> bp[begin - 1] <= bp[begin]
            &&& 2 <= k < begin - 1 ==> bp[k] > bp[k + 1]
            &&& begin == 7 && bp[6] > bp[7] ==> (2 <= k < 7 ==> bp[k] > bp[k + 1])
        }),
{
    reveal_with_fuel(eac3_audblk::leak_begin, 6);
}

/// Low frequency compensation stays from 0 to 384. Below band 20 it is set where the level rises by
/// exactly 256 to the next band, to 384 up to band 6 and to 320 from there on, falls by 64 where the level
/// falls, and is kept otherwise; from band 20 on it falls by 128.
pub proof fn law_lowcomp(bp: Seq<i32>, next: int, bin: nat)
    requires
        bin < bp.len(),
        bp.len() != 7,
    ensures
        ({
            let before = if bin == 0 {
                0
            } else {
                eac3_audblk::lowcomp(bp, next, (bin - 1) as nat)
            };
            let rise = (if bin + 1 < bp.len() {
                bp[bin as int + 1] as int
            } else {
                next
            }) - bp[bin as int];
            let low = eac3_audblk::lowcomp(bp, next, bin);
            &&& 0 <= low <= 384
            &&& bin < 7 && rise == 256 ==> low == 384
            &&& 7 <= bin < 20 && rise == 256 ==> low == 320
            &&& bin < 20 && rise < 0 ==> low == (if before >= 64 {
                before - 64
            } else {
                0
            })
            &&& bin < 20 && rise >= 0 && rise != 256 ==> low == before
            &&& bin >= 20 ==> low == (if before >= 128 {
                before - 128
            } else {
                0
            })
        }),
    decreases bin,
{
    if bin > 0 {
        law_lowcomp(bp, next, (bin - 1) as nat);
    }
}

/// The last of seven bands keeps the low frequency compensation of the band before it, and the leaks of
/// seven bands decay behind the first band from 2 to 5 that the next one does not fall below, or not at
/// all.
pub proof fn law_seven_bands(bp: Seq<i32>, next: int, k: int)
    requires
        bp.len() == 7,
    ensures
        eac3_audblk::lowcomp(bp, next, 6) == eac3_audblk::lowcomp(bp, next, 5),
        ({
            let begin = eac3_audblk::leak_begin(bp, 2);
            &&& 3 <= begin <= 7
            &&& begin < 7 ==> bp[begin - 1] <= bp[begin]
            &&& 2 <= k < begin - 1 ==> bp[k] > bp[k + 1]
        }),
{
    reveal_with_fuel(eac3_audblk::leak_begin, 6);
}

/// The excitation of a band is what the fast leak leaves, less the low frequency compensation below band
/// 22, or what the slow leak leaves where that is more. The fast leak starts 640 below a band's level and
/// falls by 83 from band to band, the slow one starts 1240 below and falls by 19.
pub proof fn law_excitation(bp: Seq<i32>, next: int, bin: nat, j: int)
    requires
        bp.len() > 7,
        bin < bp.len(),
        eac3_audblk::leak_begin(bp, 2) <= bin,
        eac3_audblk::leak_begin(bp, 2) - 1 <= j <= bin,
    ensures
        ({
            let e = eac3_audblk::excitation(bp, next, bin);
            let low = if bin < 22 {
                eac3_audblk::lowcomp(bp, next, bin)
            } else {
                0
            };
            &&& e >= bp[j] - 640 - 83 * (bin - j) - low
            &&& e >= bp[j] - 1240 - 19 * (bin - j)
            &&& exists|k: int|
                eac3_audblk::leak_begin(bp, 2) - 1 <= k <= bin && (e == (#[trigger] bp[k]) - 640 - 83 * (
                bin - k) - low || e == bp[k] - 1240 - 19 * (bin - k))
        }),
{
    let begin = eac3_audblk::leak_begin(bp, 2);
    law_leak_begin(bp, 2);
    law_leak(bp, 640, 83, begin, bin, j);
    law_leak(bp, 1240, 19, begin, bin, j);
    let fast = eac3_audblk::leak(bp, 640, 83, begin, bin);
    let slow = eac3_audblk::leak(bp, 1240, 19, begin, bin);
    let k = choose|k: int|
        k <= bin && (bin < begin ==> k == bin) && (bin >= begin ==> begin - 1 <= k) && fast
            == #[trigger] bp[k] - 640 - 83 * (bin - k);
    let m = choose|k: int|
        k <= bin && (bin < begin ==> k == bin) && (bin >= begin ==> begin - 1 <= k) && slow
            == #[trigger] bp[k] - 1240 - 19 * (bin - k);
    let e = eac3_audblk::excitation(bp, next, bin);
    let low = if bin < 22 {
        eac3_audblk::lowcomp(bp, next, bin)
    } else {
        0
    };
    if e == slow {
        assert(e == bp[m] - 1240 - 19 * (bin - m));
    } else {
        assert(e == bp[k] - 640 - 83 * (bin - k) - low);
    }
}

/// Before the leaks decay, the excitation of a band is its level less 640 and the low frequency
/// compensation.
pub proof fn law_first_excitation(bp: Seq<i32>, next: int, bin: nat)
    requires
        bin < bp.len(),
        bin < eac3_audblk::leak_begin(bp, 2),
    ensures
        eac3_audblk::excitation(bp, next, bin) == bp[bin as int] - 640 - eac3_audblk::lowcomp(
            bp,
            next,
            bin,
        ),
{
}

/// The mask of a band is its excitation, raised by a quarter of what its level is below 2304, and at
/// least the hearing threshold.
pub proof fn law_mask(bp: Seq<i32>, next: int, fscod: int, bin: nat)
    ensures
        ({
            let m = eac3_audblk::mask_level(bp, next, fscod, bin);
            let e = eac3_audblk::excitation(bp, next, bin);
            let below = 2304 - bp[bin as int];
            &&& m >= alloc_tables::hth(fscod, bin as int)
            &&& m >= e
            &&& below > 0 ==> 4 * (m - e) >= below - 3
            &&& m > alloc_tables::hth(fscod, bin as int) && below > 0 ==> 4 * (m - e) <= below
            &&& m > alloc_tables::hth(fscod, bin as int) && below <= 0 ==> m == e
        }),
{
}

/// The hearing threshold falls from the lowest bands to its least, 752, and rises from there by way of a
/// peak to the highest ones; it is a multiple of 16.
pub proof fn law_threshold(k: int)
    requires
        0 < k < 50,
    ensures
        alloc_tables::hth(0, 0) == 1232,
        alloc_tables::hth(0, k) % 16 == 0,
        752 <= alloc_tables::hth(0, k) <= 2112,
        k <= 33 ==> alloc_tables::hth(0, k) <= alloc_tables::hth(0, k - 1) <= alloc_tables::hth(0, k)
            + 144,
        30 <= k <= 33 ==> alloc_tables::hth(0, k) == 752,
        5 < k <= 33 ==> alloc_tables::hth(0, k - 1) <= alloc_tables::hth(0, k) + 16,
        33 < k <= 42 ==> alloc_tables::hth(0, k - 1) < alloc_tables::hth(0, k) <= alloc_tables::hth(
            0,
            k - 1,
        ) + 80,
        k == 42 ==> alloc_tables::hth(0, k) == 1184,
        42 < k <= 44 ==> alloc_tables::hth(0, k) < alloc_tables::hth(0, k - 1),
        44 <= k <= 45 ==> alloc_tables::hth(0, k) == 1088,
        k > 45 ==> alloc_tables::hth(0, k - 1) <= alloc_tables::hth(0, k),
        48 <= k ==> alloc_tables::hth(0, k) == 2112,
{
    reveal(alloc_tables::hth);
}

/// By how much the hearing threshold of a band is above that of the band before it, in steps of 16, for
/// the bands from 1 on.
pub open spec fn threshold_steps(fscod: int) -> Seq<int> {
    if fscod == 0 {
        seq![
            0int, -9, -4, -2, -2, -1, 0, -1, 0, 0, 0, 0, -1, 0, 0, -1,
            0, -1, 0, -1, 0, -1, 0, -1, 0, -1, -1, -1, -1, -1, 0, 0,
            0, 1, 1, 3, 5, 5, 4, 4, 3, 1, -4, -2, 0, 14, 46, 4,
            0,
        ]
    } else if fscod == 1 {
        seq![
            0int, -9, -5, -3, -1, -1, -1, 0, -1, 0, 0, 0, 0, -1, 0, 0,
            -1, 0, 0, -1, 0, -1, 0, -1, 0, -1, 0, -2, -1, -1, -1, 0,
            0, 0, 1, 2, 3, 4, 5, 4, 3, 5, -1, -3, -2, 4, 27, 33,
            0,
        ]
    } else {
        seq![
            0int, -13, -6, -3, -3, -1, -1, -1, -1, 0, 0, -1, 0, 0, 0, 0,
            0, 0, 0, -1, 0, 0, 0, -1, 0, 0, -1, -1, -1, -1, -1, -1,
            -1, -1, -1, 0, 0, 1, 1, 2, 2, 7, 5, 6, 3, -4, -2, 1,
            9,
        ]
    }
}

/// The hearing threshold of the lowest band is 1232, 1264 or 1408, by sample rate, and goes on from band
/// to band by its steps.
#[verifier::spinoff_prover]
#[verifier::rlimit(60)]
pub proof fn law_threshold_steps(fscod: int, k: int)
    requires
        0 <= fscod < 3,
        0 < k < 50,
    ensures
        alloc_tables::hth(0, 0) == 1232,
        alloc_tables::hth(1, 0) == 1264,
        alloc_tables::hth(2, 0) == 1408,
        alloc_tables::hth(fscod, k) == alloc_tables::hth(fscod, k - 1) + 16 * threshold_steps(fscod)[k - 1],
{
    reveal(alloc_tables::hth);
}

} // verus!
