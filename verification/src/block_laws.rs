//! The audio frame header and the heads of the audio blocks read back as they are written, and the
//! mantissas behind them add up.

use crate::alloc_tables;
use crate::bits;
use crate::bsi;
use crate::eac3::FrameInfo;
use crate::eac3_audblk;
use crate::eac3_audblk::{Audfrm, Channels, GroupPos};
use crate::walk_laws;
use vstd::prelude::*;

verus! {

proof fn lemma_num(s: Seq<bool>, p: int, v: nat, n: nat, rest: Seq<bool>)
    requires
        bits::has(s, p, bits::be(v, n) + rest),
        v < bits::two(n),
    ensures
        bits::field(s, p, n) == v,
        bits::has(s, p + n, rest),
{
    bits::lemma_be_len(v, n);
    bits::lemma_has_split(s, p, bits::be(v, n), rest);
    bits::lemma_field_small(s, p, v, n);
}

proof fn lemma_flag(s: Seq<bool>, p: int, b: bool, rest: Seq<bool>)
    requires
        bits::has(s, p, seq![b] + rest),
    ensures
        bits::bit(s, p) == b,
        bits::has(s, p + 1, rest),
{
    bits::lemma_has_split(s, p, seq![b], rest);
    bits::lemma_has_bit(s, p, b);
}

proof fn lemma_widths()
    ensures
        bits::two(1) == 2,
        bits::two(2) == 4,
        bits::two(4) == 16,
        bits::two(5) == 32,
        bits::two(6) == 64,
        bits::two(7) == 128,
{
    reveal_with_fuel(bits::two, 8);
}

// ------------------------------------------------------------------ the audio frame header

/// The coupling flags of the blocks behind the first: whether each says anything, and then that there is
/// no coupling.
pub open spec fn coupling_bits(says: Seq<bool>) -> Seq<bool>
    decreases says.len(),
{
    if says.len() == 0 {
        Seq::empty()
    } else {
        coupling_bits(says.drop_last()) + (if says.last() {
            seq![true, false]
        } else {
            seq![false]
        })
    }
}

proof fn lemma_coupling(s: Seq<bool>, p: int, says: Seq<bool>)
    requires
        bits::has(s, p, coupling_bits(says)),
    ensures
        eac3_audblk::coupling_end(s, p, says.len()) == p + coupling_bits(says).len(),
        !eac3_audblk::coupling_used(s, p, says.len()),
    decreases says.len(),
{
    if says.len() > 0 {
        let before = says.drop_last();
        let e = p + coupling_bits(before).len();
        let last = if says.last() {
            seq![true, false]
        } else {
            seq![false]
        };
        bits::lemma_has_split(s, p, coupling_bits(before), last);
        lemma_coupling(s, p, before);
        if says.last() {
            assert(last =~= seq![true] + seq![false]);
            lemma_flag(s, e, true, seq![false]);
            bits::lemma_has_bit(s, e + 1, false);
        } else {
            bits::lemma_has_bit(s, e, false);
        }
    }
}

/// The frame exponent strategy codes, five bits each.
pub open spec fn strategy_bits(codes: Seq<int>) -> Seq<bool>
    decreases codes.len(),
{
    if codes.len() == 0 {
        Seq::empty()
    } else {
        strategy_bits(codes.drop_last()) + bits::be(codes.last() as nat, 5)
    }
}

proof fn lemma_strategies(s: Seq<bool>, p: int, codes: Seq<int>)
    requires
        bits::has(s, p, strategy_bits(codes)),
        forall|i: int| 0 <= i < codes.len() ==> 0 <= #[trigger] codes[i] < 32,
    ensures
        strategy_bits(codes).len() == 5 * codes.len(),
        forall|i: int|
            0 <= i < codes.len() ==> bits::field(s, p + 5 * i, 5) == #[trigger] codes[i],
    decreases codes.len(),
{
    if codes.len() > 0 {
        let before = codes.drop_last();
        lemma_widths();
        assert forall|i: int| 0 <= i < before.len() implies 0 <= #[trigger] before[i] < 32 by {
            assert(before[i] == codes[i]);
        }
        assert(0 <= codes[codes.len() - 1] < 32);
        bits::lemma_be_len(codes.last() as nat, 5);
        bits::lemma_has_split(s, p, strategy_bits(before), bits::be(codes.last() as nat, 5));
        lemma_strategies(s, p, before);
        bits::lemma_field_small(s, p + 5 * before.len(), codes.last() as nat, 5);
        assert forall|i: int| 0 <= i < codes.len() implies bits::field(s, p + 5 * i, 5)
            == #[trigger] codes[i] by {
            if i < before.len() {
                assert(before[i] == codes[i]);
            }
        }
    }
}

/// What the audio frame header of a frame within the subset says.
pub struct HeaderFields {
    pub blkswe: bool,
    pub dithflage: bool,
    pub frmfgaincode: bool,
    pub skipflde: bool,
    /// Whether the blocks behind the first say that they have no coupling.
    pub coupling: Seq<bool>,
    /// Frame exponent strategy code of each channel.
    pub strategies: Seq<int>,
    /// Whether the LFE channel has new exponents in each block.
    pub lfe: Seq<bool>,
    /// The converter exponent strategy.
    pub converter: Seq<bool>,
    pub coarse: nat,
    pub fine: nat,
    /// The block start info, where there is one.
    pub starts: Option<Seq<bool>>,
}

/// Bits of the block start info for a word index of `n` bits: that and four bits for each block but the
/// first.
pub open spec fn starts_len(n: int) -> int {
    5 * (n + 4)
}

impl HeaderFields {
    pub open spec fn ok(self) -> bool {
        &&& self.coupling.len() == 5
        &&& self.strategies.len() == 5
        &&& forall|i: int| 0 <= i < 5 ==> 0 <= #[trigger] self.strategies[i] < 32
        &&& self.lfe.len() == 6
        &&& self.converter.len() == 25
        &&& self.coarse < 64
        &&& self.fine < 16
    }

    pub open spec fn tail_bits(self) -> Seq<bool> {
        bits::be(self.coarse, 6) + (bits::be(self.fine, 4) + (match self.starts {
            Some(x) => seq![true] + x,
            None => seq![false],
        }))
    }

    pub open spec fn rest_bits(self) -> Seq<bool> {
        coupling_bits(self.coupling) + (strategy_bits(self.strategies) + (self.lfe + (self.converter
            + self.tail_bits())))
    }

    pub open spec fn bits(self) -> Seq<bool> {
        seq![false] + (seq![false] + (bits::be(0, 2) + (seq![false] + (seq![self.blkswe] + (seq![
            self.dithflage,
        ] + (seq![false] + (seq![self.frmfgaincode] + (seq![false] + (seq![self.skipflde] + (seq![
            false,
        ] + (seq![false] + self.rest_bits())))))))))))
    }
}

proof fn lemma_header_flags(s: Seq<bool>, b: int, h: HeaderFields)
    requires
        bits::has(s, b, h.bits()),
    ensures
        !bits::bit(s, b),
        !bits::bit(s, b + 1),
        bits::field(s, b + 2, 2) == 0,
        !bits::bit(s, b + 4),
        bits::bit(s, b + 5) == h.blkswe,
        bits::bit(s, b + 6) == h.dithflage,
        !bits::bit(s, b + 7),
        bits::bit(s, b + 8) == h.frmfgaincode,
        !bits::bit(s, b + 9),
        bits::bit(s, b + 10) == h.skipflde,
        !bits::bit(s, b + 11),
        !bits::bit(s, b + 12),
        bits::has(s, b + 13, h.rest_bits()),
        h.bits().len() == 13 + h.rest_bits().len(),
{
    lemma_widths();
    bits::lemma_be_len(0, 2);
    let r12 = seq![false] + h.rest_bits();
    let r11 = seq![false] + r12;
    let r10 = seq![h.skipflde] + r11;
    let r9 = seq![false] + r10;
    let r8 = seq![h.frmfgaincode] + r9;
    let r7 = seq![false] + r8;
    let r6 = seq![h.dithflage] + r7;
    let r5 = seq![h.blkswe] + r6;
    let r4 = seq![false] + r5;
    let r2 = bits::be(0, 2) + r4;
    let r1 = seq![false] + r2;
    lemma_flag(s, b, false, r1);
    lemma_flag(s, b + 1, false, r2);
    lemma_num(s, b + 2, 0, 2, r4);
    lemma_flag(s, b + 4, false, r5);
    lemma_flag(s, b + 5, h.blkswe, r6);
    lemma_flag(s, b + 6, h.dithflage, r7);
    lemma_flag(s, b + 7, false, r8);
    lemma_flag(s, b + 8, h.frmfgaincode, r9);
    lemma_flag(s, b + 9, false, r10);
    lemma_flag(s, b + 10, h.skipflde, r11);
    lemma_flag(s, b + 11, false, r12);
    lemma_flag(s, b + 12, false, h.rest_bits());
}

/// An audio frame header within the subset is accepted and reads back: flags, exponent strategies, LFE
/// flags, SNR offsets, and the place where the blocks begin.
#[verifier::spinoff_prover]
pub proof fn law_header(s: Seq<bool>, info: FrameInfo, b: int, h: HeaderFields)
    requires
        0 <= b <= usize::MAX - 0x10_0000,
        info.acmod == 7,
        info.lfe,
        info.blocks == 6,
        info.strmtyp == 0,
        h.ok(),
        h.starts matches Some(x) ==> x.len() == starts_len(
            eac3_audblk::digits((info.size / 2 - 1) as nat) as int,
        ),
        4 <= info.size < 0x1_0000_0000,
        bits::has(s, b, h.bits()),
    ensures
        eac3_audblk::audfrm_ok(s, info, b),
        ({
            let af = eac3_audblk::audfrm_at(s, info, b);
            &&& af.skipfld_bit == b + 10
            &&& bits::bit(s, af.skipfld_bit as int) == h.skipflde
            &&& af.blkswe == h.blkswe
            &&& af.dithflage == h.dithflage
            &&& af.frmfgaincode == h.frmfgaincode
            &&& af.frmcsnroffst == h.coarse
            &&& af.frmfsnroffst == h.fine
            &&& af.block0_bit == b + h.bits().len()
            &&& forall|ch: int, block: int|
                0 <= ch < 5 ==> #[trigger] eac3_audblk::strategy(s, af, block, ch)
                    == alloc_tables::frm_exp_str(h.strategies[ch], block)
            &&& forall|block: int|
                0 <= block < 6 ==> bits::bit(s, af.lfeexp_bit + block) == #[trigger] h.lfe[block]
        }),
{
    lemma_widths();
    lemma_header_flags(s, b, h);
    let c = coupling_bits(h.coupling);
    let st = strategy_bits(h.strategies);
    let q = b + 13;
    let p = q + c.len();
    let tail = h.tail_bits();
    bits::lemma_has_split(s, q, c, st + (h.lfe + (h.converter + tail)));
    lemma_coupling(s, q, h.coupling);
    bits::lemma_has_split(s, p, st, h.lfe + (h.converter + tail));
    lemma_strategies(s, p, h.strategies);
    bits::lemma_has_split(s, p + 25, h.lfe, h.converter + tail);
    bits::lemma_has_split(s, p + 31, h.converter, tail);
    bits::lemma_be_len(h.coarse, 6);
    bits::lemma_be_len(h.fine, 4);
    let last = match h.starts {
        Some(x) => seq![true] + x,
        None => seq![false],
    };
    lemma_num(s, p + 56, h.coarse, 6, bits::be(h.fine, 4) + last);
    lemma_num(s, p + 62, h.fine, 4, last);
    match h.starts {
        Some(x) => {
            lemma_flag(s, p + 66, true, x);
        },
        None => {
            bits::lemma_has_bit(s, p + 66, false);
        },
    }
    lemma_coupling_len(h.coupling);
    lemma_starts_len(info.size as int);
    let af = eac3_audblk::audfrm_at(s, info, b);
    assert(af.chexp_bit == p);
    assert forall|ch: int, block: int| 0 <= ch < 5 implies #[trigger] eac3_audblk::strategy(
        s,
        af,
        block,
        ch,
    ) == alloc_tables::frm_exp_str(h.strategies[ch], block) by {
        assert(bits::field(s, p + 5 * ch, 5) == h.strategies[ch]);
    }
    assert forall|block: int| 0 <= block < 6 implies bits::bit(s, af.lfeexp_bit + block)
        == #[trigger] h.lfe[block] by {
        assert(s.subrange(p + 25, p + 31)[block] == h.lfe[block]);
    }
}

proof fn lemma_coupling_len(says: Seq<bool>)
    ensures
        says.len() <= coupling_bits(says).len() <= 2 * says.len(),
    decreases says.len(),
{
    if says.len() > 0 {
        lemma_coupling_len(says.drop_last());
    }
}

proof fn lemma_starts_len(size: int)
    requires
        4 <= size < 0x1_0000_0000,
    ensures
        eac3_audblk::blkstrt_bits(size) == starts_len(eac3_audblk::digits((size / 2 - 1) as nat) as int),
        eac3_audblk::blkstrt_bits(size) <= 180,
{
    bits::lemma_two_values();
    law_word_index(size / 2);
    if eac3_audblk::digits((size / 2 - 1) as nat) > 32 {
        bits::lemma_two_mono(32, (eac3_audblk::digits((size / 2 - 1) as nat) - 1) as nat);
    }
}

/// A word index takes as many bits as number all `words` words of a frame, and no more.
pub proof fn law_word_index(words: int)
    requires
        words >= 2,
    ensures
        ({
            let n = eac3_audblk::digits((words - 1) as nat);
            &&& n >= 1
            &&& words <= bits::two(n)
            &&& bits::two((n - 1) as nat) < words
        }),
    decreases words,
{
    let v = (words - 1) as nat;
    if v == 1 {
        reveal_with_fuel(bits::two, 2);
        reveal_with_fuel(eac3_audblk::digits, 2);
    } else {
        law_word_index(v as int / 2 + 1);
        let m = eac3_audblk::digits(v / 2);
        assert(eac3_audblk::digits(v) == m + 1);
        assert(bits::two(m + 1) == 2 * bits::two(m));
        assert(bits::two(m) == 2 * bits::two((m - 1) as nat));
    }
}

// ------------------------------------------------------------------ block heads

/// What a channel with new exponents brings.
pub struct ChannelFields {
    pub bandwidth: int,
    pub first: int,
    pub codes: Seq<u8>,
    pub gain: int,
}

/// What the head of a block within the subset says.
pub struct BlockFields {
    /// Block switch and dither flags, where they are coded.
    pub switches: Seq<bool>,
    pub dither: Seq<bool>,
    pub dynrng: Option<Seq<bool>>,
    /// Whether a block behind the first says that it has no spectral extension.
    pub says_spx: bool,
    pub channels: Seq<ChannelFields>,
    /// First exponent and group codes of the LFE channel.
    pub lfe_first: int,
    pub lfe_codes: Seq<u8>,
    pub convsnr: Option<Seq<bool>>,
}

/// An optional field: a flag, and the field where it is set.
pub open spec fn opt_bits(x: Option<Seq<bool>>) -> Seq<bool> {
    match x {
        Some(v) => seq![true] + v,
        None => seq![false],
    }
}

proof fn lemma_opt(s: Seq<bool>, p: int, x: Option<Seq<bool>>, n: int)
    requires
        bits::has(s, p, opt_bits(x)),
        x matches Some(v) ==> v.len() == n,
    ensures
        bsi::after_opt(s, p, n) == p + opt_bits(x).len(),
{
    match x {
        Some(v) => {
            lemma_flag(s, p, true, v);
        },
        None => {
            bits::lemma_has_bit(s, p, false);
        },
    }
}

pub open spec fn flags_bits(b: BlockFields, af: Audfrm) -> Seq<bool> {
    (if af.blkswe {
        b.switches
    } else {
        Seq::empty()
    }) + ((if af.dithflage {
        b.dither
    } else {
        Seq::empty()
    }) + opt_bits(b.dynrng))
}

pub open spec fn spx_bits(b: BlockFields, block: int) -> Seq<bool> {
    if block > 0 && b.says_spx {
        seq![true] + seq![false]
    } else {
        seq![false]
    }
}

/// The bandwidth codes of the first `n` channels: one for each that has new exponents.
pub open spec fn bandwidth_bits(b: BlockFields, strats: Seq<int>, n: nat) -> Seq<bool>
    decreases n,
{
    if n == 0 {
        Seq::empty()
    } else {
        bandwidth_bits(b, strats, (n - 1) as nat) + (if strats[n - 1] != 0 {
            bits::be(b.channels[n - 1].bandwidth as nat, 6)
        } else {
            Seq::empty()
        })
    }
}

/// Group codes, seven bits each.
pub open spec fn code_bits(codes: Seq<u8>) -> Seq<bool>
    decreases codes.len(),
{
    if codes.len() == 0 {
        Seq::empty()
    } else {
        code_bits(codes.drop_last()) + bits::be(codes.last() as nat, 7)
    }
}

proof fn lemma_codes(s: Seq<bool>, p: int, codes: Seq<u8>)
    requires
        bits::has(s, p, code_bits(codes)),
        forall|i: int| 0 <= i < codes.len() ==> #[trigger] codes[i] < 128,
    ensures
        code_bits(codes).len() == 7 * codes.len(),
        eac3_audblk::codes_at(s, p, codes.len()) == codes,
    decreases codes.len(),
{
    if codes.len() > 0 {
        let before = codes.drop_last();
        lemma_widths();
        assert forall|i: int| 0 <= i < before.len() implies #[trigger] before[i] < 128 by {
            assert(before[i] == codes[i]);
        }
        assert(codes[codes.len() - 1] < 128);
        bits::lemma_be_len(codes.last() as nat, 7);
        bits::lemma_has_split(s, p, code_bits(before), bits::be(codes.last() as nat, 7));
        lemma_codes(s, p, before);
        bits::lemma_field_small(s, p + 7 * before.len(), codes.last() as nat, 7);
        let read = eac3_audblk::codes_at(s, p, codes.len());
        assert forall|i: int| 0 <= i < codes.len() implies #[trigger] read[i] == codes[i] by {
            if i < before.len() {
                assert(eac3_audblk::codes_at(s, p, before.len())[i] == before[i]);
            }
        }
        assert(read =~= codes);
    } else {
        assert(eac3_audblk::codes_at(s, p, 0) =~= codes);
    }
}

/// The exponents of a channel: the first one in four bits, the group codes, and two bits of gain range.
pub open spec fn channel_exps(c: ChannelFields) -> Seq<bool> {
    bits::be(c.first as nat, 4) + (code_bits(c.codes) + bits::be(c.gain as nat, 2))
}

/// The exponents of the first `n` channels: of each that has new ones.
pub open spec fn exponent_bits(b: BlockFields, strats: Seq<int>, n: nat) -> Seq<bool>
    decreases n,
{
    if n == 0 {
        Seq::empty()
    } else {
        exponent_bits(b, strats, (n - 1) as nat) + (if strats[n - 1] != 0 {
            channel_exps(b.channels[n - 1])
        } else {
            Seq::empty()
        })
    }
}

/// The exponents of the LFE channel: the first one and two group codes.
pub open spec fn lfe_bits(b: BlockFields, fresh: bool) -> Seq<bool> {
    if fresh {
        bits::be(b.lfe_first as nat, 4) + code_bits(b.lfe_codes)
    } else {
        Seq::empty()
    }
}

/// Where the mantissas of a channel with new exponents end.
pub open spec fn end_of(bandwidth: int) -> int {
    73 + 3 * bandwidth
}

pub open spec fn fields_ok(b: BlockFields, strats: Seq<int>) -> bool {
    &&& b.switches.len() == 5
    &&& b.dither.len() == 5
    &&& b.dynrng matches Some(v) ==> v.len() == 8
    &&& b.convsnr matches Some(v) ==> v.len() == 10
    &&& 0 <= b.lfe_first < 16
    &&& b.lfe_codes.len() == 2
    &&& forall|i: int| 0 <= i < 2 ==> #[trigger] b.lfe_codes[i] < 128
    &&& strats.len() == 5
    &&& forall|ch: int| 0 <= ch < 5 ==> 0 <= #[trigger] strats[ch] <= 3
    &&& b.channels.len() == 5
    &&& forall|ch: int|
        0 <= ch < 5 && strats[ch] != 0 ==> channel_ok(#[trigger] b.channels[ch], strats[ch])
}

pub open spec fn channel_ok(c: ChannelFields, strat: int) -> bool {
    &&& 0 <= c.bandwidth <= 60
    &&& 0 <= c.first < 16
    &&& 0 <= c.gain < 4
    &&& c.codes.len() == eac3_audblk::group_count(strat, end_of(c.bandwidth))
    &&& forall|i: int| 0 <= i < c.codes.len() ==> #[trigger] c.codes[i] < 128
}

/// The head of a block, up to its skip field.
pub open spec fn head_bits(
    b: BlockFields,
    af: Audfrm,
    block: int,
    strats: Seq<int>,
    lfe: bool,
) -> Seq<bool> {
    flags_bits(b, af) + (spx_bits(b, block) + (bandwidth_bits(b, strats, 5) + (exponent_bits(
        b,
        strats,
        5,
    ) + (lfe_bits(b, lfe) + ((if af.frmfgaincode {
        seq![false]
    } else {
        Seq::empty()
    }) + opt_bits(b.convsnr))))))
}

proof fn lemma_flags(s: Seq<bool>, pos: int, b: BlockFields, af: Audfrm)
    requires
        bits::has(s, pos, flags_bits(b, af)),
        b.switches.len() == 5,
        b.dither.len() == 5,
        b.dynrng matches Some(v) ==> v.len() == 8,
    ensures
        eac3_audblk::spx_pos(s, af, pos) == pos + flags_bits(b, af).len(),
{
    let x = if af.blkswe {
        b.switches
    } else {
        Seq::empty()
    };
    let y = if af.dithflage {
        b.dither
    } else {
        Seq::empty()
    };
    bits::lemma_has_split(s, pos, x, y + opt_bits(b.dynrng));
    bits::lemma_has_split(s, pos + x.len(), y, opt_bits(b.dynrng));
    lemma_opt(s, pos + x.len() + y.len(), b.dynrng, 8);
}

proof fn lemma_spx(s: Seq<bool>, p: int, b: BlockFields, block: int)
    requires
        bits::has(s, p, spx_bits(b, block)),
        0 <= block,
    ensures
        !eac3_audblk::spx_used(s, block, p),
        eac3_audblk::bandwidth_pos(s, block, p) == p + spx_bits(b, block).len(),
{
    if block > 0 && b.says_spx {
        lemma_flag(s, p, true, seq![false]);
        bits::lemma_has_bit(s, p + 1, false);
    } else {
        bits::lemma_has_bit(s, p, false);
    }
}

/// The strategies are those of the block.
pub open spec fn strategies_of(s: Seq<bool>, af: Audfrm, block: int, strats: Seq<int>) -> bool {
    forall|ch: int|
        0 <= ch < 5 ==> #[trigger] eac3_audblk::strategy(s, af, block, ch) == strats[ch]
}

proof fn lemma_bandwidths(
    s: Seq<bool>,
    af: Audfrm,
    block: int,
    p: int,
    b: BlockFields,
    strats: Seq<int>,
    n: nat,
)
    requires
        n <= 5,
        fields_ok(b, strats),
        strategies_of(s, af, block, strats),
        bits::has(s, p, bandwidth_bits(b, strats, n)),
    ensures
        eac3_audblk::chbwcod_pos(s, af, block, p, n) == p + bandwidth_bits(b, strats, n).len(),
        forall|ch: int|
            0 <= ch < n && strats[ch] != 0 ==> #[trigger] eac3_audblk::chbwcod(s, af, block, p, ch)
                == b.channels[ch].bandwidth,
    decreases n,
{
    if n > 0 {
        let k = n - 1;
        let piece = if strats[k] != 0 {
            bits::be(b.channels[k].bandwidth as nat, 6)
        } else {
            Seq::empty()
        };
        assert(eac3_audblk::strategy(s, af, block, k) == strats[k]);
        bits::lemma_has_split(s, p, bandwidth_bits(b, strats, k as nat), piece);
        lemma_bandwidths(s, af, block, p, b, strats, k as nat);
        if strats[k] != 0 {
            assert(channel_ok(b.channels[k], strats[k]));
            lemma_widths();
            bits::lemma_be_len(b.channels[k].bandwidth as nat, 6);
            bits::lemma_field_small(
                s,
                p + bandwidth_bits(b, strats, k as nat).len(),
                b.channels[k].bandwidth as nat,
                6,
            );
        }
        assert forall|ch: int| 0 <= ch < n && strats[ch] != 0 implies #[trigger] eac3_audblk::chbwcod(
            s,
            af,
            block,
            p,
            ch,
        ) == b.channels[ch].bandwidth by {
            if ch == k {
            }
        }
    }
}

proof fn lemma_channel_exps(s: Seq<bool>, q: int, c: ChannelFields, strat: int)
    requires
        1 <= strat <= 3,
        channel_ok(c, strat),
        bits::has(s, q, channel_exps(c)),
    ensures
        channel_exps(c).len() == 6 + 7 * eac3_audblk::group_count(strat, end_of(c.bandwidth)),
        eac3_audblk::levels_at(s, q, strat, end_of(c.bandwidth)) == eac3_audblk::psd_of(
            c.first,
            c.codes,
            eac3_audblk::group_size(strat),
        ),
{
    lemma_widths();
    bits::lemma_be_len(c.first as nat, 4);
    bits::lemma_be_len(c.gain as nat, 2);
    lemma_num(s, q, c.first as nat, 4, code_bits(c.codes) + bits::be(c.gain as nat, 2));
    bits::lemma_has_split(s, q + 4, code_bits(c.codes), bits::be(c.gain as nat, 2));
    lemma_codes(s, q + 4, c.codes);
}

proof fn lemma_exponents(
    s: Seq<bool>,
    af: Audfrm,
    block: int,
    p: int,
    b: BlockFields,
    strats: Seq<int>,
    end: Seq<int>,
    n: nat,
)
    requires
        n <= 5,
        fields_ok(b, strats),
        strategies_of(s, af, block, strats),
        end.len() == 5,
        forall|ch: int|
            0 <= ch < 5 && strats[ch] != 0 ==> #[trigger] end[ch] == end_of(b.channels[ch].bandwidth),
        bits::has(s, p, exponent_bits(b, strats, n)),
    ensures
        eac3_audblk::exponent_pos(s, af, block, p, end, n) == p + exponent_bits(b, strats, n).len(),
        forall|ch: int|
            0 <= ch < n && strats[ch] != 0 ==> #[trigger] eac3_audblk::levels_at(
                s,
                eac3_audblk::exponent_pos(s, af, block, p, end, ch as nat),
                strats[ch],
                end[ch],
            ) == eac3_audblk::psd_of(
                b.channels[ch].first,
                b.channels[ch].codes,
                eac3_audblk::group_size(strats[ch]),
            ),
    decreases n,
{
    if n > 0 {
        let k = n - 1;
        let piece = if strats[k] != 0 {
            channel_exps(b.channels[k])
        } else {
            Seq::empty()
        };
        assert(eac3_audblk::strategy(s, af, block, k) == strats[k]);
        bits::lemma_has_split(s, p, exponent_bits(b, strats, k as nat), piece);
        lemma_exponents(s, af, block, p, b, strats, end, k as nat);
        if strats[k] != 0 {
            assert(0 <= strats[k] <= 3);
            assert(channel_ok(b.channels[k], strats[k]));
            assert(end[k] == end_of(b.channels[k].bandwidth));
            lemma_channel_exps(
                s,
                p + exponent_bits(b, strats, k as nat).len(),
                b.channels[k],
                strats[k],
            );
        }
    }
}

proof fn lemma_lfe(s: Seq<bool>, q: int, b: BlockFields, strats: Seq<int>)
    requires
        fields_ok(b, strats),
        bits::has(s, q, lfe_bits(b, true)),
    ensures
        lfe_bits(b, true).len() == 18,
        eac3_audblk::levels_at(s, q, 1, 7) == eac3_audblk::psd_of(b.lfe_first, b.lfe_codes, 1),
{
    lemma_widths();
    bits::lemma_be_len(b.lfe_first as nat, 4);
    lemma_num(s, q, b.lfe_first as nat, 4, code_bits(b.lfe_codes));
    lemma_codes(s, q + 4, b.lfe_codes);
}

/// What a block head leaves of the channels: a channel with new exponents has the levels they stand for,
/// up to the end that its bandwidth code gives; the others keep what they had.
pub open spec fn channels_after(b: BlockFields, strats: Seq<int>, lfe: bool, c: Channels) -> Channels {
    Channels {
        psd: Seq::new(
            5,
            |ch: int|
                if strats[ch] != 0 {
                    eac3_audblk::psd_of(
                        b.channels[ch].first,
                        b.channels[ch].codes,
                        eac3_audblk::group_size(strats[ch]),
                    )
                } else {
                    c.psd[ch]
                },
        ),
        end: Seq::new(
            5,
            |ch: int|
                if strats[ch] != 0 {
                    end_of(b.channels[ch].bandwidth)
                } else {
                    c.end[ch]
                },
        ),
        lfe: if lfe {
            eac3_audblk::psd_of(b.lfe_first, b.lfe_codes, 1)
        } else {
            c.lfe
        },
    }
}

/// The head of a block within the subset is accepted; its skip field stands where the head ends; and
/// every channel has what the head brings for it, or what it had.
#[verifier::spinoff_prover]
pub proof fn law_block_head(
    s: Seq<bool>,
    af: Audfrm,
    block: int,
    pos: int,
    c: Channels,
    b: BlockFields,
    strats: Seq<int>,
)
    requires
        0 <= block < 6,
        fields_ok(b, strats),
        strategies_of(s, af, block, strats),
        bits::has(
            s,
            pos,
            head_bits(b, af, block, strats, bits::bit(s, af.lfeexp_bit + block)),
        ),
    ensures
        ({
            let lfe = bits::bit(s, af.lfeexp_bit + block);
            let h = eac3_audblk::block_head(s, af, block, pos, c);
            &&& h.ok
            &&& h.skip == pos + head_bits(b, af, block, strats, lfe).len()
            &&& h.channels == channels_after(b, strats, lfe, c)
        }),
{
    let lfe = bits::bit(s, af.lfeexp_bit + block);
    let fgain = if af.frmfgaincode {
        seq![false]
    } else {
        Seq::empty()
    };
    let e1 = flags_bits(b, af);
    let e2 = spx_bits(b, block);
    let e3 = bandwidth_bits(b, strats, 5);
    let e4 = exponent_bits(b, strats, 5);
    let e5 = lfe_bits(b, lfe);
    let e7 = opt_bits(b.convsnr);
    lemma_seven_parts(s, pos, e1, e2, e3, e4, e5, fgain, e7);
    let p1 = pos + e1.len();
    let p2 = p1 + e2.len();
    let p3 = p2 + e3.len();
    let p4 = p3 + e4.len();
    let p5 = p4 + e5.len();
    let p6 = p5 + fgain.len();
    lemma_flags(s, pos, b, af);
    lemma_spx(s, p1, b, block);
    lemma_bandwidths(s, af, block, p2, b, strats, 5);
    let end = eac3_audblk::next_ends(s, af, block, p2, c.end);
    assert forall|ch: int| 0 <= ch < 5 && strats[ch] != 0 implies #[trigger] end[ch] == end_of(
        b.channels[ch].bandwidth,
    ) by {
        assert(eac3_audblk::strategy(s, af, block, ch) == strats[ch]);
        assert(eac3_audblk::chbwcod(s, af, block, p2, ch) == b.channels[ch].bandwidth);
    }
    lemma_exponents(s, af, block, p3, b, strats, end, 5);
    if lfe {
        lemma_lfe(s, p4, b, strats);
    }
    if af.frmfgaincode {
        bits::lemma_has_bit(s, p5, false);
    }
    lemma_opt(s, p6, b.convsnr, 10);
    let h = eac3_audblk::block_head(s, af, block, pos, c);
    assert(eac3_audblk::bandwidths_ok(s, af, block, p2)) by {
        assert forall|ch: int|
            0 <= ch < 5 && eac3_audblk::strategy(s, af, block, ch)
                != 0 implies #[trigger] eac3_audblk::chbwcod(s, af, block, p2, ch) <= 60 by {
            assert(channel_ok(b.channels[ch], strats[ch]));
        }
    }
    let after = channels_after(b, strats, lfe, c);
    assert(h.channels.end =~= after.end) by {
        assert forall|ch: int| 0 <= ch < 5 implies #[trigger] h.channels.end[ch] == after.end[ch] by {
            assert(eac3_audblk::strategy(s, af, block, ch) == strats[ch]);
        }
    }
    assert(h.channels.psd =~= after.psd) by {
        assert forall|ch: int| 0 <= ch < 5 implies #[trigger] h.channels.psd[ch] == after.psd[ch] by {
            assert(eac3_audblk::strategy(s, af, block, ch) == strats[ch]);
        }
    }
}

/// A head that is accepted has bandwidth codes of at most 60 and no spectral extension: wherever one of
/// these is otherwise, the walk ends.
pub proof fn law_head_accepted(s: Seq<bool>, af: Audfrm, block: int, pos: int, c: Channels, ch: int)
    requires
        eac3_audblk::block_head(s, af, block, pos, c).ok,
        0 <= ch < 5,
    ensures
        ({
            let p1 = eac3_audblk::spx_pos(s, af, pos);
            let p2 = eac3_audblk::bandwidth_pos(s, block, p1);
            let end = eac3_audblk::block_head(s, af, block, pos, c).channels.end;
            &&& eac3_audblk::strategy(s, af, block, ch) != 0 ==> bits::field(
                s,
                eac3_audblk::chbwcod_pos(s, af, block, p2, ch as nat),
                6,
            ) <= 60 && 73 <= end[ch] <= 253
            &&& block == 0 ==> !bits::bit(s, p1)
            &&& block != 0 ==> !(bits::bit(s, p1) && bits::bit(s, p1 + 1))
        }),
{
    let p1 = eac3_audblk::spx_pos(s, af, pos);
    let p2 = eac3_audblk::bandwidth_pos(s, block, p1);
    if eac3_audblk::strategy(s, af, block, ch) != 0 {
        assert(eac3_audblk::chbwcod(s, af, block, p2, ch) <= 60);
    }
}

proof fn lemma_seven_parts(
    s: Seq<bool>,
    p: int,
    a: Seq<bool>,
    b: Seq<bool>,
    c: Seq<bool>,
    d: Seq<bool>,
    e: Seq<bool>,
    f: Seq<bool>,
    g: Seq<bool>,
)
    requires
        bits::has(s, p, a + (b + (c + (d + (e + (f + g)))))),
    ensures
        bits::has(s, p, a),
        bits::has(s, p + a.len(), b),
        bits::has(s, p + a.len() + b.len(), c),
        bits::has(s, p + a.len() + b.len() + c.len(), d),
        bits::has(s, p + a.len() + b.len() + c.len() + d.len(), e),
        bits::has(s, p + a.len() + b.len() + c.len() + d.len() + e.len(), f),
        bits::has(s, p + a.len() + b.len() + c.len() + d.len() + e.len() + f.len(), g),
        (a + (b + (c + (d + (e + (f + g)))))).len() == a.len() + b.len() + c.len() + d.len() + e.len()
            + f.len() + g.len(),
{
    bits::lemma_has_split(s, p, a, b + (c + (d + (e + (f + g)))));
    bits::lemma_has_split(s, p + a.len(), b, c + (d + (e + (f + g))));
    bits::lemma_has_split(s, p + a.len() + b.len(), c, d + (e + (f + g)));
    bits::lemma_has_split(s, p + a.len() + b.len() + c.len(), d, e + (f + g));
    bits::lemma_has_split(s, p + a.len() + b.len() + c.len() + d.len(), e, f + g);
    bits::lemma_has_split(s, p + a.len() + b.len() + c.len() + d.len() + e.len(), f, g);
}

// ------------------------------------------------------------------ mantissas of a block

/// The pointers of a channel, with the SNR offset that the coarse and fine offsets stand for.
pub open spec fn channel_pointers(af: Audfrm, fscod: int, psd: Seq<i32>, end: int) -> Seq<u8> {
    eac3_audblk::baps(psd, end, fscod, 64 * af.frmcsnroffst + 4 * af.frmfsnroffst - 960).subrange(
        0,
        end,
    )
}

/// What the mantissas of the first `n` full-bandwidth channels take, in sixths of a bit.
pub open spec fn channels_cost(af: Audfrm, fscod: int, c: Channels, n: nat) -> int
    decreases n,
{
    if n == 0 {
        0
    } else {
        channels_cost(af, fscod, c, (n - 1) as nat) + walk_laws::total_cost(
            channel_pointers(af, fscod, c.psd[n - 1], c.end[n - 1]),
        )
    }
}

proof fn lemma_pointers_small(af: Audfrm, fscod: int, psd: Seq<i32>, end: int)
    requires
        0 <= end <= 256,
    ensures
        forall|i: int|
            0 <= i < channel_pointers(af, fscod, psd, end).len() ==> #[trigger] channel_pointers(
                af,
                fscod,
                psd,
                end,
            )[i] < 16,
{
    let snr = 64 * af.frmcsnroffst + 4 * af.frmfsnroffst - 960;
    let bp = eac3_audblk::band_levels(psd, eac3_audblk::band_count(end));
    let next = eac3_audblk::next_level(psd, end);
    let all = channel_pointers(af, fscod, psd, end);
    assert forall|i: int| 0 <= i < all.len() implies #[trigger] all[i] < 16 by {
        walk_laws::lemma_pointer_bound(psd, bp, next, fscod, snr, i);
    }
}

proof fn lemma_channels_cost(af: Audfrm, fscod: int, c: Channels, n: nat)
    requires
        forall|ch: int| 0 <= ch < n ==> 0 <= #[trigger] c.end[ch] <= 256,
    ensures
        ({
            let (total, g) = eac3_audblk::channel_bits(af, fscod, c, n);
            &&& g.ok()
            &&& 6 * total + walk_laws::pending(g) == 69 + channels_cost(af, fscod, c, n)
        }),
    decreases n,
{
    if n > 0 {
        let k = n - 1;
        lemma_channels_cost(af, fscod, c, k as nat);
        assert(0 <= c.end[k] <= 256);
        let (total, g) = eac3_audblk::channel_bits(af, fscod, c, k as nat);
        let b = channel_pointers(af, fscod, c.psd[k], c.end[k]);
        lemma_pointers_small(af, fscod, c.psd[k], c.end[k]);
        walk_laws::law_mantissa_cost(b, g);
    }
}

/// The mantissas of a block are those of its five full-bandwidth channels and of the seven bins of the
/// LFE channel: their bits are what these take, but for what the last groups leave open. Where both SNR
/// offsets are zero there are none.
pub proof fn law_block_bits(af: Audfrm, fscod: int, c: Channels)
    requires
        forall|ch: int| 0 <= ch < 5 ==> 0 <= #[trigger] c.end[ch] <= 256,
    ensures
        af.frmcsnroffst == 0 && af.frmfsnroffst == 0 ==> eac3_audblk::block_bits(af, fscod, c) == 0,
        af.frmcsnroffst != 0 || af.frmfsnroffst != 0 ==> exists|g: GroupPos|
            #[trigger] g.ok() && 6 * eac3_audblk::block_bits(af, fscod, c) + walk_laws::pending(g) == 69
                + channels_cost(af, fscod, c, 5) + walk_laws::total_cost(
                channel_pointers(af, fscod, c.lfe, 7),
            ),
{
    lemma_channels_cost(af, fscod, c, 5);
    let (total, g) = eac3_audblk::channel_bits(af, fscod, c, 5);
    let b = channel_pointers(af, fscod, c.lfe, 7);
    lemma_pointers_small(af, fscod, c.lfe, 7);
    walk_laws::law_mantissa_cost(b, g);
    assert(eac3_audblk::groups_after(b, g).ok());
}

/// The walk goes on from block to block: a block begins where the mantissas of the one before it end,
/// the first one where the audio frame header says, and its channels start from what that one left.
pub proof fn law_walk_step(s: Seq<bool>, af: Audfrm, fscod: int, n: nat)
    ensures
        ({
            let w = eac3_audblk::walk(s, af, fscod, n);
            let v = eac3_audblk::walk(s, af, fscod, n + 1);
            &&& n == 0 ==> w is Some && w->0.pos == af.block0_bit && w->0.points.len() == 0
            &&& v is Some ==> w is Some && {
                let h = eac3_audblk::block_head(s, af, n as int, w->0.pos, w->0.channels);
                &&& h.ok
                &&& v->0.points == w->0.points.push(h.skip)
                &&& v->0.pos - h.skip == eac3_audblk::block_bits(af, fscod, h.channels)
                &&& v->0.channels == h.channels
            }
            &&& w is Some && eac3_audblk::block_head(s, af, n as int, w->0.pos, w->0.channels).ok
                ==> v is Some
        }),
{
}

/// Before the first block no full-bandwidth channel has bins, and the seven of the LFE channel have level
/// zero.
pub proof fn law_walk_start(s: Seq<bool>, af: Audfrm, fscod: int, ch: int)
    requires
        0 <= ch < 5,
    ensures
        ({
            let c = eac3_audblk::walk(s, af, fscod, 0)->0.channels;
            &&& c.psd.len() == 5 && c.psd[ch].len() == 0
            &&& c.end.len() == 5 && c.end[ch] == 0
            &&& c.lfe.len() == 7 && forall|i: int| 0 <= i < 7 ==> #[trigger] c.lfe[i] == 0
        }),
{
}

/// A frame that walks is an independent 5.1 frame of six blocks at 48 kHz without adaptive hybrid
/// transform, transient processing, delta bit allocation, spectral extension attenuation, block-wise SNR
/// offsets or exponent strategies, bit allocation parameters of its own, or coupling in the first block.
pub proof fn law_walked_frame(s: Seq<bool>, info: FrameInfo, b: int)
    requires
        eac3_audblk::frame_walk(s, info, b) is Some,
    ensures
        info.strmtyp == 0,
        info.acmod == 7,
        info.lfe,
        info.blocks == 6,
        info.fscod == 0,
        forall|i: int|
            i == 0 || i == 1 || i == 4 || i == 7 || i == 9 || i == 11 || i == 12 ==> !#[trigger] bits::bit(
                s,
                b + i,
            ),
        bits::field(s, b + 2, 2) == 0,
        !eac3_audblk::coupling_used(s, b + 13, 5),
{
}

/// Coupling is in use as soon as one block behind the first switches it on.
pub proof fn law_coupling_found(s: Seq<bool>, p: int, n: nat, k: nat)
    requires
        k < n,
        bits::bit(s, eac3_audblk::coupling_end(s, p, k)),
        bits::bit(s, eac3_audblk::coupling_end(s, p, k) + 1),
    ensures
        eac3_audblk::coupling_used(s, p, n),
    decreases n,
{
    if k < n - 1 {
        law_coupling_found(s, p, (n - 1) as nat, k);
    }
}

} // verus!
