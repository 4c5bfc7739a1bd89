//! Bit stream information: the variable part of a syncframe's header, up to the audio frame.
//!
//! Every function here walks the same grammar. Its positions are stated once, as functions of the
//! frame's bits and of the fixed header.

use crate::bits;
use crate::bits::BitReader;
use crate::eac3::FrameInfo;
use vstd::prelude::*;

verus! {

/// Where a field of `n` bits that a flag at `pos` announces ends: behind it, or behind the flag.
pub open spec fn after_opt(s: Seq<bool>, pos: int, n: int) -> int {
    if bits::bit(s, pos) {
        pos + 1 + n
    } else {
        pos + 1
    }
}

/// Where `mixmdate` stands, behind dialogue level, compression and channel map.
pub open spec fn mixmdate_pos(s: Seq<bool>, info: FrameInfo) -> int {
    let p1 = after_opt(s, 50, 8);
    let p2 = if info.acmod == 0 {
        after_opt(s, p1 + 5, 8)
    } else {
        p1
    };
    if info.strmtyp == 1 {
        after_opt(s, p2, 16)
    } else {
        p2
    }
}

/// Where the program-scale part of the mixing metadata starts, `p` being where `mixmdate` is set.
pub open spec fn pgmscle_pos(s: Seq<bool>, info: FrameInfo, p: int) -> int {
    let cm = info.acmod;
    let a = p + 1 + (if cm > 2 {
        2int
    } else {
        0
    }) + (if cm % 2 == 1 && cm > 2 {
        6int
    } else {
        0
    }) + (if cm % 8 >= 4 {
        6int
    } else {
        0
    });
    if info.lfe {
        after_opt(s, a, 5)
    } else {
        a
    }
}

pub open spec fn extpgmscle_pos(s: Seq<bool>, info: FrameInfo, p: int) -> int {
    let c = after_opt(s, pgmscle_pos(s, info, p), 6);
    if info.acmod == 0 {
        after_opt(s, c, 6)
    } else {
        c
    }
}

pub open spec fn mixdef_pos(s: Seq<bool>, info: FrameInfo, p: int) -> int {
    after_opt(s, extpgmscle_pos(s, info, p), 6)
}

pub open spec fn frmmixcfginfoe_pos(s: Seq<bool>, info: FrameInfo, p: int) -> int {
    let e = mixdef_pos(s, info, p);
    let def = bits::field(s, e, 2);
    let f = if def == 1 {
        e + 2 + 5
    } else if def == 2 {
        e + 2 + 12
    } else if def == 3 {
        e + 2 + 5 + 8 * (bits::field(s, e + 2, 5) + 2)
    } else {
        e + 2
    };
    if info.acmod < 2 {
        let g = after_opt(s, f, 14);
        if info.acmod == 0 {
            after_opt(s, g, 14)
        } else {
            g
        }
    } else {
        f
    }
}

/// Where `n` mixing configurations end that stand from `pos` on, each announced by a flag.
pub open spec fn block_mix_end(s: Seq<bool>, pos: int, n: nat) -> int
    decreases n,
{
    if n == 0 {
        pos
    } else {
        after_opt(s, block_mix_end(s, pos, (n - 1) as nat), 5)
    }
}

/// Where `infomdate` stands, behind the mixing metadata.
#[verifier::opaque]
pub open spec fn infomdate_pos(s: Seq<bool>, info: FrameInfo) -> int {
    let p = mixmdate_pos(s, info);
    if !bits::bit(s, p) {
        p + 1
    } else if info.strmtyp != 0 {
        pgmscle_pos(s, info, p)
    } else {
        let g = frmmixcfginfoe_pos(s, info, p);
        if !bits::bit(s, g) {
            g + 1
        } else if info.blocks == 1 {
            g + 6
        } else {
            block_mix_end(s, g + 1, info.blocks as nat)
        }
    }
}

/// Where `audprodie` stands, `p` being where `infomdate` is set.
pub open spec fn audprodie_pos(info: FrameInfo, p: int) -> int {
    p + 6 + (if info.acmod == 2 {
        4int
    } else if info.acmod >= 6 {
        2
    } else {
        0
    })
}

/// Where `addbsie` stands, behind the informational metadata.
#[verifier::opaque]
pub open spec fn addbsie_pos(s: Seq<bool>, info: FrameInfo) -> int {
    let p = infomdate_pos(s, info);
    let e = if !bits::bit(s, p) {
        p + 1
    } else {
        let c = after_opt(s, audprodie_pos(info, p), 8);
        let d = if info.acmod == 0 {
            after_opt(s, c, 8)
        } else {
            c
        };
        if info.fscod < 3 {
            d + 1
        } else {
            d
        }
    };
    if info.strmtyp == 0 && info.blocks != 6 {
        e + 1
    } else {
        e
    }
}

/// How many bytes of additional information the frame has, when `addbsie` is set.
pub open spec fn addbsi_len(s: Seq<bool>, info: FrameInfo) -> nat {
    bits::field(s, addbsie_pos(s, info) + 1, 6) + 1
}

/// The additional information: its `n` bytes, from bit `pos` on.
pub open spec fn bytes_at(s: Seq<bool>, pos: int, n: nat) -> Seq<u8> {
    Seq::new(n, |i: int| bits::field(s, pos + 8 * i, 8) as u8)
}

/// Where the audio frame starts, behind any additional information.
pub open spec fn audfrm_pos(s: Seq<bool>, info: FrameInfo) -> int {
    let p = addbsie_pos(s, info);
    if bits::bit(s, p) {
        p + 7 + 8 * addbsi_len(s, info)
    } else {
        p + 1
    }
}

/// The parts of the mixing metadata that a dump shows.
#[derive(Debug, Clone, Copy, PartialEq, Eq, Structural)]
pub struct MixDump {
    pub pgmscle: bool,
    pub extpgmscle: bool,
    pub mixdef: u32,
    pub frmmixcfginfoe: bool,
}

/// The parts of the informational metadata that a dump shows.
#[derive(Debug, Clone, Copy, PartialEq, Eq, Structural)]
pub struct InfoDump {
    pub bsmod: u32,
    /// Present for channel modes 6 and up.
    pub dsurexmod: Option<u32>,
    pub audprodie: bool,
}

/// The mixing metadata of a frame whose `mixmdate` stands at `p`.
pub open spec fn mix_at(s: Seq<bool>, info: FrameInfo, p: int) -> Option<MixDump> {
    if bits::bit(s, p) && info.strmtyp == 0 {
        Some(
            MixDump {
                pgmscle: bits::bit(s, pgmscle_pos(s, info, p)),
                extpgmscle: bits::bit(s, extpgmscle_pos(s, info, p)),
                mixdef: bits::field(s, mixdef_pos(s, info, p), 2) as u32,
                frmmixcfginfoe: bits::bit(s, frmmixcfginfoe_pos(s, info, p)),
            },
        )
    } else {
        None
    }
}

/// The informational metadata of a frame whose `infomdate` stands at `p`.
pub open spec fn info_at(s: Seq<bool>, info: FrameInfo, p: int) -> Option<InfoDump> {
    if bits::bit(s, p) {
        Some(
            InfoDump {
                bsmod: bits::field(s, p + 1, 3) as u32,
                dsurexmod: if info.acmod >= 6 {
                    Some(bits::field(s, p + 6, 2) as u32)
                } else {
                    None
                },
                audprodie: bits::bit(s, audprodie_pos(info, p)),
            },
        )
    } else {
        None
    }
}

/// Every field of a frame's bit stream information that a dump shows.
#[derive(Debug)]
pub struct BsiDump {
    pub dialnorm: u32,
    pub compre: bool,
    pub mixmdate: bool,
    pub mix: Option<MixDump>,
    pub info: Option<InfoDump>,
    /// The additional information, when `addbsie` is set; its length field is one less than its
    /// length.
    pub addbsi: Option<Vec<u8>>,
    /// The audio frame's skip-field flag, for independent frames of six blocks.
    pub skipflde: bool,
    /// The aux-data flag in the frame's tail.
    pub auxdatae: bool,
}

pub proof fn lemma_block_mix_bound(s: Seq<bool>, pos: int, n: nat)
    ensures
        pos <= block_mix_end(s, pos, n) <= pos + 6 * n,
    decreases n,
{
    if n > 0 {
        lemma_block_mix_bound(s, pos, (n - 1) as nat);
    }
}

proof fn lemma_mix_bounds(s: Seq<bool>, info: FrameInfo, p: int)
    ensures
        p < pgmscle_pos(s, info, p) <= p + 21,
        pgmscle_pos(s, info, p) < extpgmscle_pos(s, info, p) <= p + 35,
        extpgmscle_pos(s, info, p) < mixdef_pos(s, info, p) <= p + 42,
{
}

proof fn lemma_frmmix_bounds(s: Seq<bool>, info: FrameInfo, p: int)
    ensures
        mixdef_pos(s, info, p) < frmmixcfginfoe_pos(s, info, p) <= mixdef_pos(s, info, p) + 301,
{
    let e = mixdef_pos(s, info, p);
    bits::lemma_two_values();
    bits::lemma_field_bound(s, e + 2, 5);
}

proof fn lemma_infomdate_bounds(s: Seq<bool>, info: FrameInfo)
    ensures
        mixmdate_pos(s, info) < infomdate_pos(s, info) <= 2000,
{
    reveal(infomdate_pos);
    let p = mixmdate_pos(s, info);
    assert(51 <= p <= 100);
    lemma_mix_bounds(s, info, p);
    lemma_frmmix_bounds(s, info, p);
    let g = frmmixcfginfoe_pos(s, info, p);
    lemma_block_mix_bound(s, g + 1, info.blocks as nat);
}

/// The header's variable part is short.
pub proof fn lemma_bsi_bounds(s: Seq<bool>, info: FrameInfo)
    ensures
        51 <= mixmdate_pos(s, info) <= 100,
        mixmdate_pos(s, info) < infomdate_pos(s, info) <= 2000,
        infomdate_pos(s, info) < addbsie_pos(s, info) <= 2200,
        1 <= addbsi_len(s, info) <= 64,
{
    reveal(addbsie_pos);
    lemma_infomdate_bounds(s, info);
    let p = infomdate_pos(s, info);
    assert(p < addbsie_pos(s, info) <= p + 50);
    bits::lemma_two_values();
    bits::lemma_field_bound(s, addbsie_pos(s, info) + 1, 6);
}

// ------------------------------------------------------------------ what the positions depend on

/// Two headers that describe the same layout: all but place and size agree.
pub open spec fn same_layout(a: FrameInfo, b: FrameInfo) -> bool {
    &&& a.strmtyp == b.strmtyp
    &&& a.blocks == b.blocks
    &&& a.fscod == b.fscod
    &&& a.acmod == b.acmod
    &&& a.lfe == b.lfe
    &&& a.bsid == b.bsid
}

/// The bits from `lo` up to `hi` are the same.
pub open spec fn agree(s: Seq<bool>, t: Seq<bool>, lo: int, hi: int) -> bool {
    forall|i: int| lo <= i < hi ==> #[trigger] bits::bit(s, i) == bits::bit(t, i)
}

pub proof fn lemma_agree_field(s: Seq<bool>, t: Seq<bool>, lo: int, hi: int, p: int, n: nat)
    requires
        agree(s, t, lo, hi),
        lo <= p,
        p + n <= hi,
    ensures
        bits::field(s, p, n) == bits::field(t, p, n),
{
    assert forall|i: int| 0 <= i < n implies bits::bit(s, #[trigger] (p + i)) == bits::bit(t, p + i) by {}
    bits::lemma_field_ext(s, p, t, p, n);
}

proof fn lemma_mix_ext(s: Seq<bool>, t: Seq<bool>, a: FrameInfo, b: FrameInfo, p: int, hi: int)
    requires
        same_layout(a, b),
        agree(s, t, 45, hi),
        45 <= p,
    ensures
        pgmscle_pos(s, a, p) <= hi ==> pgmscle_pos(t, b, p) == pgmscle_pos(s, a, p),
        mixdef_pos(s, a, p) <= hi ==> mixdef_pos(t, b, p) == mixdef_pos(s, a, p),
{
}

proof fn lemma_frmmix_ext(s: Seq<bool>, t: Seq<bool>, a: FrameInfo, b: FrameInfo, p: int, hi: int)
    requires
        same_layout(a, b),
        agree(s, t, 45, hi),
        45 <= p,
        frmmixcfginfoe_pos(s, a, p) <= hi,
    ensures
        frmmixcfginfoe_pos(t, b, p) == frmmixcfginfoe_pos(s, a, p),
{
    let e = mixdef_pos(s, a, p);
    lemma_frmmix_bounds(s, a, p);
    lemma_mix_bounds(s, a, p);
    lemma_mix_ext(s, t, a, b, p, hi);
    assert(e + 2 <= frmmixcfginfoe_pos(s, a, p));
    lemma_agree_field(s, t, 45, hi, e, 2);
    if bits::field(s, e, 2) == 3 {
        assert(e + 7 <= frmmixcfginfoe_pos(s, a, p));
        lemma_agree_field(s, t, 45, hi, e + 2, 5);
    }
}

proof fn lemma_block_mix_ext(s: Seq<bool>, t: Seq<bool>, p: int, n: nat, hi: int)
    requires
        agree(s, t, 45, hi),
        45 <= p,
        block_mix_end(s, p, n) <= hi,
    ensures
        block_mix_end(t, p, n) == block_mix_end(s, p, n),
    decreases n,
{
    if n > 0 {
        lemma_block_mix_bound(s, p, (n - 1) as nat);
        lemma_block_mix_ext(s, t, p, (n - 1) as nat, hi);
    }
}

/// Where `infomdate` stands depends on the bits in front of it alone.
pub proof fn lemma_infomdate_ext(s: Seq<bool>, t: Seq<bool>, a: FrameInfo, b: FrameInfo)
    requires
        same_layout(a, b),
        agree(s, t, 45, infomdate_pos(s, a)),
    ensures
        infomdate_pos(t, b) == infomdate_pos(s, a),
{
    reveal(infomdate_pos);
    let hi = infomdate_pos(s, a);
    lemma_infomdate_bounds(s, a);
    let p = mixmdate_pos(s, a);
    assert(mixmdate_pos(t, b) == p);
    if bits::bit(s, p) {
        if a.strmtyp != 0 {
            lemma_mix_ext(s, t, a, b, p, hi);
        } else {
            let g = frmmixcfginfoe_pos(s, a, p);
            lemma_block_mix_bound(s, g + 1, a.blocks as nat);
            lemma_frmmix_ext(s, t, a, b, p, hi);
            if bits::bit(s, g) && a.blocks != 1 {
                lemma_block_mix_ext(s, t, g + 1, a.blocks as nat, hi);
            }
        }
    }
}

/// Where `addbsie` stands depends on the bits in front of it alone.
pub proof fn lemma_addbsie_ext(s: Seq<bool>, t: Seq<bool>, a: FrameInfo, b: FrameInfo)
    requires
        same_layout(a, b),
        agree(s, t, 45, addbsie_pos(s, a)),
    ensures
        addbsie_pos(t, b) == addbsie_pos(s, a),
{
    reveal(addbsie_pos);
    lemma_bsi_bounds(s, a);
    lemma_infomdate_ext(s, t, a, b);
}

// ------------------------------------------------------------------ reading

/// Reads a flag and skips the `n` bits that it announces.
pub(crate) fn skip_opt(r: &mut BitReader, n: u32) -> (b: bool)
    requires
        old(r).pos + 1 + n <= usize::MAX,
        n <= 32,
    ensures
        final(r).data@ == old(r).data@,
        final(r).pos == after_opt(old(r).bits(), old(r).pos as int, n as int),
        b == bits::bit(old(r).bits(), old(r).pos as int),
{
    let b = r.read_bit();
    if b {
        r.read(n);
    }
    b
}

/// Reads dialogue level and compression flag, and skips to `mixmdate`.
fn read_head(r: &mut BitReader, info: &FrameInfo) -> (d: (u32, bool))
    requires
        old(r).pos == 45,
    ensures
        final(r).data@ == old(r).data@,
        final(r).pos == mixmdate_pos(old(r).bits(), *info),
        d.0 == bits::field(old(r).bits(), 45, 5),
        d.1 == bits::bit(old(r).bits(), 50),
{
    let dialnorm = r.read(5);
    let compre = skip_opt(r, 8);
    if info.acmod == 0 {
        r.read(5);
        skip_opt(r, 8);
    }
    if info.strmtyp == 1 {
        skip_opt(r, 16);  // dependent: chanmap
    }
    (dialnorm, compre)
}

/// Skips the part of the mixing metadata before the program scale.
fn skip_downmix(r: &mut BitReader, info: &FrameInfo)
    requires
        1 <= old(r).pos <= 200,
    ensures
        final(r).data@ == old(r).data@,
        final(r).pos == pgmscle_pos(old(r).bits(), *info, old(r).pos - 1),
{
    let cm = info.acmod;
    if cm > 2 {
        r.read(2);  // dmixmod
    }
    if cm % 2 == 1 && cm > 2 {
        r.read(6);  // centerDownmix
    }
    if cm % 8 >= 4 {
        r.read(6);  // surroundDownmix
    }
    if info.lfe {
        skip_opt(r, 5);  // lfemixlevcod
    }
}

/// Skips the body that a mixing definition code announces.
fn skip_mixdef(r: &mut BitReader, mixdef: u32)
    requires
        2 <= old(r).pos <= 400,
        mixdef == bits::field(old(r).bits(), old(r).pos - 2, 2),
    ensures
        final(r).data@ == old(r).data@,
        final(r).pos <= old(r).pos + 271,
        final(r).pos == old(r).pos + (if mixdef == 1 {
            5nat
        } else if mixdef == 2 {
            12
        } else if mixdef == 3 {
            5 + 8 * (bits::field(old(r).bits(), old(r).pos as int, 5) + 2)
        } else {
            0
        }),
{
    match mixdef {
        1 => {
            r.read(5);
        },
        2 => {
            r.read(12);
        },
        3 => {
            let n: u32 = r.read(5) + 2;
            let ghost q = r.pos as int;
            let mut i: u32 = 0;
            while i < n
                invariant
                    i <= n <= 33,
                    q <= 405,
                    r.data@ == old(r).data@,
                    r.pos == q + 8 * i,
                decreases n - i,
            {
                r.read(8);
                i = i + 1;
            }
        },
        _ => {},
    }
}

/// Reads the program scale part of the mixing metadata, up to and with `frmmixcfginfoe`.
fn read_scale(r: &mut BitReader, info: &FrameInfo, Ghost(p): Ghost<int>) -> (m: MixDump)
    requires
        0 <= p <= 100,
        old(r).pos == pgmscle_pos(old(r).bits(), *info, p),
        bits::bit(old(r).bits(), p),
        info.strmtyp == 0,
    ensures
        final(r).data@ == old(r).data@,
        final(r).pos == frmmixcfginfoe_pos(old(r).bits(), *info, p) + 1,
        mix_at(old(r).bits(), *info, p) == Some(m),
{
    let ghost s = r.bits();
    let cm = info.acmod;
    proof {
        lemma_mix_bounds(s, *info, p);
        lemma_frmmix_bounds(s, *info, p);
    }
    let pgmscle = skip_opt(r, 6);
    if cm == 0 {
        skip_opt(r, 6);  // pgmscl2
    }
    assert(r.pos == extpgmscle_pos(s, *info, p));
    let extpgmscle = skip_opt(r, 6);
    assert(r.pos == mixdef_pos(s, *info, p));
    let mixdef = r.read(2);
    skip_mixdef(r, mixdef);
    if cm < 2 {
        skip_opt(r, 14);
        if cm == 0 {
            skip_opt(r, 14);
        }
    }
    assert(r.pos == frmmixcfginfoe_pos(s, *info, p));
    let frmmixcfginfoe = r.read_bit();
    MixDump { pgmscle, extpgmscle, mixdef, frmmixcfginfoe }
}

/// Skips the per-block mixing configurations.
fn skip_block_mix(r: &mut BitReader, blocks: u8)
    requires
        old(r).pos <= 1000,
    ensures
        final(r).data@ == old(r).data@,
        final(r).pos == block_mix_end(old(r).bits(), old(r).pos as int, blocks as nat),
{
    let ghost s = r.bits();
    let ghost q = r.pos as int;
    let mut i: u8 = 0;
    while i < blocks
        invariant
            i <= blocks,
            q <= 1000,
            r.data@ == old(r).data@,
            s == bits::bits_of(r.data@),
            r.pos == block_mix_end(s, q, i as nat),
        decreases blocks - i,
    {
        proof {
            lemma_block_mix_bound(s, q, i as nat);
        }
        skip_opt(r, 5);
        i = i + 1;
    }
}

/// Reads mixing_metadata() and its flag.
fn read_mixing(r: &mut BitReader, info: &FrameInfo) -> (m: (bool, Option<MixDump>))
    requires
        old(r).pos == mixmdate_pos(old(r).bits(), *info),
    ensures
        final(r).data@ == old(r).data@,
        final(r).pos == infomdate_pos(old(r).bits(), *info),
        m.0 == bits::bit(old(r).bits(), old(r).pos as int),
        m.1 == mix_at(old(r).bits(), *info, old(r).pos as int),
{
    proof {
        reveal(infomdate_pos);
    }
    let ghost p = r.pos as int;
    let ghost s = r.bits();
    proof {
        lemma_bsi_bounds(s, *info);
        lemma_mix_bounds(s, *info, p);
        lemma_frmmix_bounds(s, *info, p);
    }
    let mixmdate = r.read_bit();
    if !mixmdate {
        return (false, None);
    }
    skip_downmix(r, info);
    if info.strmtyp != 0 {
        return (true, None);
    }
    let mix = read_scale(r, info, Ghost(p));
    if mix.frmmixcfginfoe {
        if info.blocks == 1 {
            r.read(5);
        } else {
            skip_block_mix(r, info.blocks);
        }
    }
    (true, Some(mix))
}

/// Reads info_metadata() and its flag, and skips to `addbsie`.
fn read_info(r: &mut BitReader, info: &FrameInfo) -> (m: Option<InfoDump>)
    requires
        old(r).pos == infomdate_pos(old(r).bits(), *info),
    ensures
        final(r).data@ == old(r).data@,
        final(r).pos == addbsie_pos(old(r).bits(), *info),
        m == info_at(old(r).bits(), *info, old(r).pos as int),
{
    proof {
        reveal(addbsie_pos);
    }
    let ghost s = r.bits();
    let ghost p = r.pos as int;
    proof {
        lemma_bsi_bounds(s, *info);
    }
    let cm = info.acmod;
    let mut out: Option<InfoDump> = None;
    if r.read_bit() {
        let bsmod = r.read(3);
        r.read(1);  // copyright
        r.read(1);  // original
        let mut dsurexmod: Option<u32> = None;
        if cm == 2 {
            r.read(2);
            r.read(2);
        } else if cm >= 6 {
            dsurexmod = Some(r.read(2));
        }
        let audprodie = skip_opt(r, 8);
        if cm == 0 {
            skip_opt(r, 8);
        }
        if info.fscod < 3 {
            r.read(1);  // sourcefscod
        }
        out = Some(InfoDump { bsmod, dsurexmod, audprodie });
    }
    if info.strmtyp == 0 && info.blocks != 6 {
        r.read(1);  // convsync
    }
    out
}

/// Locate the `infomdate` flag (start of `info_metadata()`): its bit index and its value. E-AC-3 only.
pub fn bsi_infomdate_pos(frame: &[u8], info: &FrameInfo) -> (r: Option<(usize, bool)>)
    ensures
        r is Some == (info.bsid == 16),
        r matches Some((p, v)) ==> p == infomdate_pos(bits::bits_of(frame@), *info) && v == bits::bit(
            bits::bits_of(frame@),
            p as int,
        ),
{
    if info.bsid != 16 {
        return None;
    }
    let mut r = BitReader::at(frame, 45);
    read_head(&mut r, info);
    read_mixing(&mut r, info);
    let q = r.pos;
    proof {
        lemma_bsi_bounds(bits::bits_of(frame@), *info);
    }
    let infomdate = r.read_bit();
    Some((q, infomdate))
}

/// Locate the `addbsie` flag: its bit index and its value. E-AC-3 only.
pub fn bsi_addbsie_pos(frame: &[u8], info: &FrameInfo) -> (r: Option<(usize, bool)>)
    ensures
        r is Some == (info.bsid == 16),
        r matches Some((p, v)) ==> p == addbsie_pos(bits::bits_of(frame@), *info) && v == bits::bit(
            bits::bits_of(frame@),
            p as int,
        ) && 53 <= p <= 2200,
{
    if info.bsid != 16 {
        return None;  // E-AC-3 only
    }
    let mut r = BitReader::at(frame, 45);
    read_head(&mut r, info);
    read_mixing(&mut r, info);
    read_info(&mut r, info);
    let p = r.pos;
    proof {
        lemma_bsi_bounds(bits::bits_of(frame@), *info);
    }
    let addbsie = r.read_bit();
    Some((p, addbsie))
}

/// Reads `n` bytes.
fn read_bytes(r: &mut BitReader, n: usize) -> (bytes: Vec<u8>)
    requires
        old(r).pos + 8 * n <= usize::MAX,
    ensures
        final(r).data@ == old(r).data@,
        final(r).pos == old(r).pos + 8 * n,
        bytes@ == bytes_at(old(r).bits(), old(r).pos as int, n as nat),
{
    let ghost s = r.bits();
    let ghost p = r.pos as int;
    let mut bytes: Vec<u8> = Vec::with_capacity(n);
    let mut i: usize = 0;
    while i < n
        invariant
            i <= n,
            p + 8 * n <= usize::MAX,
            r.pos == p + 8 * i,
            r.data@ == old(r).data@,
            s == bits::bits_of(r.data@),
            bytes@ == bytes_at(s, p, i as nat),
        decreases n - i,
    {
        let b = r.read(8) as u8;
        bytes.push(b);
        i = i + 1;
        assert(bytes@ =~= bytes_at(s, p, i as nat));
    }
    assert(bytes@ =~= bytes_at(s, p, n as nat));
    bytes
}

/// Raw addbsi field: its length and its bytes.
pub fn read_addbsi_raw(frame: &[u8], info: &FrameInfo) -> (r: Option<(usize, Vec<u8>)>)
    ensures
        ({
            let s = bits::bits_of(frame@);
            let p = addbsie_pos(s, *info);
            &&& r is Some == (info.bsid == 16 && bits::bit(s, p))
            &&& r matches Some((n, b)) ==> n == addbsi_len(s, *info) && b@ == bytes_at(
                s,
                p + 7,
                n as nat,
            )
        }),
{
    match bsi_addbsie_pos(frame, info) {
        Some((p, true)) => {
            proof {
                lemma_bsi_bounds(bits::bits_of(frame@), *info);
            }
            let mut r = BitReader::at(frame, p + 1);
            let nbytes = r.read(6) as usize + 1;
            let bytes = read_bytes(&mut r, nbytes);
            Some((nbytes, bytes))
        },
        _ => None,
    }
}

/// Read back the addbsi Atmos extension: `(flag_ec3_extension_type_a, complexity_index_type_a)`,
/// laid out as reserved(7), flag(1), complexity(8).
pub fn read_addbsi(frame: &[u8], info: &FrameInfo) -> (r: Option<(bool, u8)>)
    ensures
        ({
            let s = bits::bits_of(frame@);
            let p = addbsie_pos(s, *info);
            &&& r is Some == (info.bsid == 16 && bits::bit(s, p) && addbsi_len(s, *info) >= 2)
            &&& r matches Some((flag, c)) ==> flag == bits::bit(s, p + 14) && c == bits::field(s, p + 15, 8)
        }),
{
    match bsi_addbsie_pos(frame, info) {
        Some((p, true)) => {
            let mut r = BitReader::at(frame, p + 1);
            let nbytes: u32 = r.read(6) + 1;  // addbsil + 1
            if nbytes < 2 {
                return None;
            }
            r.read(7);
            let flag = r.read_bit();
            let complexity = r.read(8) as u8;
            Some((flag, complexity))
        },
        _ => None,
    }
}

/// Bit offset where the audio-frame (`audfrm`) data begins, i.e. the end of `bsi()` including any
/// `addbsi`.
pub fn audfrm_start_bit(frame: &[u8], info: &FrameInfo) -> (r: Option<usize>)
    ensures
        r is Some == (info.bsid == 16),
        r matches Some(p) ==> p == audfrm_pos(bits::bits_of(frame@), *info) && 54 <= p <= 2800,
{
    proof {
        lemma_bsi_bounds(bits::bits_of(frame@), *info);
    }
    match bsi_addbsie_pos(frame, info) {
        Some((p, true)) => {
            let mut r = BitReader::at(frame, p + 1);
            let nbytes = r.read(6) as usize + 1;  // addbsil + 1
            Some(p + 1 + 6 + nbytes * 8)
        },
        Some((p, false)) => Some(p + 1),
        None => None,
    }
}

/// Every bsi() field of one frame, for comparing cores. `None` for a frame that is not E-AC-3.
pub fn bsi_dump(frame: &[u8], info: &FrameInfo) -> (r: Option<BsiDump>)
    requires
        info.bsid == 16 ==> 3 <= frame@.len() && 8 * frame@.len() <= usize::MAX,
    ensures
        r is Some == (info.bsid == 16),
        r matches Some(d) ==> {
            let s = bits::bits_of(frame@);
            let p = addbsie_pos(s, *info);
            &&& d.dialnorm == bits::field(s, 45, 5)
            &&& d.compre == bits::bit(s, 50)
            &&& d.mixmdate == bits::bit(s, mixmdate_pos(s, *info))
            &&& d.mix == mix_at(s, *info, mixmdate_pos(s, *info))
            &&& d.info == info_at(s, *info, infomdate_pos(s, *info))
            &&& d.addbsi is Some == bits::bit(s, p)
            &&& d.addbsi matches Some(b) ==> b@ == bytes_at(s, p + 7, addbsi_len(s, *info))
            &&& d.skipflde == bits::bit(s, audfrm_pos(s, *info) + 10)
            &&& d.auxdatae == bits::bit(s, s.len() - 18)
        },
{
    if info.bsid != 16 {
        return None;
    }
    proof {
        lemma_bsi_bounds(bits::bits_of(frame@), *info);
    }
    let mut r = BitReader::at(frame, 45);
    let (dialnorm, compre) = read_head(&mut r, info);
    let (mixmdate, mix) = read_mixing(&mut r, info);
    let infod = read_info(&mut r, info);
    let mut addbsi: Option<Vec<u8>> = None;
    if r.read_bit() {
        let n = r.read(6) as usize + 1;
        addbsi = Some(read_bytes(&mut r, n));
    }
    let audfrm_start = r.pos;
    let mut r2 = BitReader::at(frame, audfrm_start + 10);
    let skipflde = r2.read_bit();
    let total = frame.len() * 8;
    let mut r3 = BitReader::at(frame, total - 18);
    let auxdatae = r3.read_bit();
    Some(BsiDump { dialnorm, compre, mixmdate, mix, info: infod, addbsi, skipflde, auxdatae })
}

} // verus!
