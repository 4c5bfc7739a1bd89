//! Putting metadata into frames: in the auxiliary data at the tail, in the additional bit stream
//! information, and in the skip field of an audio block. The audio data is copied bit for bit; the
//! frame size and the check word are renewed.

use crate::bits;
use crate::bits::{BitReader, BitWriter};
use crate::bsi;
use crate::bsi::{bsi_addbsie_pos, bsi_infomdate_pos};
use crate::crc;
use crate::crc::crc16;
use crate::eac3;
use crate::eac3::{FrameInfo, MAX_FRAME_BYTES};
use crate::eac3_audblk;
use crate::eac3_audblk::{skip_points, skipfld_enable_bit};
use vstd::prelude::*;

verus! {

/// Bits of the tail behind a frame's body: auxdatae, crcrsv and crc2.
pub const TAIL_BITS: usize = 18;

/// The smallest even number of bytes that holds `n` bits.
pub open spec fn frame_bytes(n: int) -> int {
    2 * ((n + 15) / 16)
}

/// A frame's bits with the frame size set to `size` bytes.
pub open spec fn resized(s: Seq<bool>, size: int) -> Seq<bool> {
    s.take(21) + bits::be((size / 2 - 1) as nat, 11) + s.skip(32)
}

/// A frame that is complete but for its check word, with the check word, which covers everything
/// behind the syncword.
pub open spec fn sealed(pre: Seq<bool>) -> Seq<bool> {
    pre + bits::be(crc::crc16_of(pre.skip(16)) as nat, 16)
}

fn frame_size(n: usize) -> (r: usize)
    requires
        n <= usize::MAX - 15,
    ensures
        r == frame_bytes(n as int),
        8 * r >= n,
        r % 2 == 0,
{
    2 * ((n + 15) / 16)
}

/// A copy of `frame` with its size field set to `size` bytes.
fn resize(frame: &[u8], size: usize) -> (r: Vec<u8>)
    requires
        frame@.len() >= 4,
        8 * frame@.len() <= usize::MAX,
        2 <= size <= MAX_FRAME_BYTES,
    ensures
        bits::bits_of(r@) == resized(bits::bits_of(frame@), size as int),
        r@.len() == frame@.len(),
{
    let mut w = BitWriter::with_capacity(frame.len());
    let ghost s = bits::bits_of(frame@);
    w.copy_bits(frame, 21);
    w.write((size / 2 - 1) as u32, 11);
    w.copy_bits_from(frame, 32, frame.len() * 8 - 32);
    proof {
        bits::lemma_be_len((size / 2 - 1) as nat, 11);
        assert(w@ =~= resized(s, size as int)) by {
            assert(s.subrange(32, s.len() as int) =~= s.skip(32));
        }
        assert(w@.len() == s.len());
    }
    let r = w.finish();
    assert(bits::bits_of(r@).len() == 8 * r@.len());
    r
}

/// Appends the check word.
fn seal(pre: Vec<u8>) -> (r: Vec<u8>)
    requires
        pre@.len() >= 2,
    ensures
        bits::bits_of(r@) == sealed(bits::bits_of(pre@)),
{
    let mut r = pre;
    let ghost s = bits::bits_of(pre@);
    let crc = crc16(&r.as_slice()[2..r.len()]);
    proof {
        bits::lemma_bits_subrange(pre@, 2, pre@.len() as int);
        assert(s.subrange(16, s.len() as int) =~= s.skip(16));
    }
    let hi: u8 = (crc / 256) as u8;
    let lo: u8 = (crc % 256) as u8;
    r.push(hi);
    proof {
        bits::lemma_bits_push(pre@, hi);
        bits::lemma_bits_push(pre@.push(hi), lo);
        bits::lemma_two_values();
        bits::lemma_be_concat(hi as nat, lo as nat, 8, 8);
        assert(s + bits::be(hi as nat, 8) + bits::be(lo as nat, 8) =~= s + (bits::be(hi as nat, 8) + bits::be(
            lo as nat,
            8,
        )));
    }
    r.push(lo);
    r
}

// ------------------------------------------------------------------ auxiliary data

/// How many bits a frame of `bits` bits with an auxiliary payload of `n` bits needs.
pub open spec fn aux_need(bits: int, n: int) -> int {
    bits - TAIL_BITS + n + 14 + 1 + 1 + 16
}

/// The frame `s` with `payload` as its auxiliary data, up to the check word: the body, a gap that
/// fills the last word, the payload, its length and the flag that announces it.
pub open spec fn aux_frame(s: Seq<bool>, payload: Seq<bool>) -> Seq<bool> {
    let need = aux_need(s.len() as int, payload.len() as int);
    let size = frame_bytes(need);
    resized(s, size).take(s.len() - TAIL_BITS) + bits::zeros((8 * size - need) as nat) + payload + bits::be(
        payload.len(),
        14,
    ) + seq![true, false]
}

/// Inject `payload` (MSB-first, `payload_bits` significant bits) into a frame's aux-data field,
/// growing the frame and recomputing crc2. The input `frame` must have no aux data yet.
///
/// Returns the new, larger frame. The audio blocks are preserved bit-exactly.
pub fn inject_aux(frame: &[u8], payload: &[u8], payload_bits: usize) -> (out: Vec<u8>)
    requires
        frame@.len() >= 6,
        payload_bits <= 8 * payload@.len(),
        frame_bytes(aux_need(8 * frame@.len() as int, payload_bits as int)) <= MAX_FRAME_BYTES,
    ensures
        bits::bits_of(out@) == sealed(
            aux_frame(bits::bits_of(frame@), bits::bits_of(payload@).take(payload_bits as int)),
        ),
        out@.len() == frame_bytes(aux_need(8 * frame@.len() as int, payload_bits as int)),
{
    let ghost s = bits::bits_of(frame@);
    let ghost p = bits::bits_of(payload@).take(payload_bits as int);
    let body_bits = frame.len() * 8 - TAIL_BITS;
    let need = body_bits + payload_bits + 32;
    let ns = frame_size(need);
    let gap = ns * 8 - need;
    let body = resize(frame, ns);
    let mut w = BitWriter::with_capacity(ns);
    w.copy_bits(&body, body_bits);  // sync + bsi + audfrm + audblks + original padding
    w.zero_bits(gap);
    w.copy_bits(payload, payload_bits);  // auxbits (user data)
    w.write(payload_bits as u32, 14);  // auxdatal (length in bits)
    w.bit(1);  // auxdatae
    w.bit(0);  // crcrsv
    proof {
        bits::lemma_be_len(payload_bits as nat, 14);
        assert(w@ =~= aux_frame(s, p));
        assert(w@.len() == 8 * ns - 16);
    }
    let pre = w.finish();
    assert(bits::bits_of(pre@).len() == 8 * pre@.len());
    let out = seal(pre);
    proof {
        bits::lemma_be_len(crc::crc16_of(bits::bits_of(pre@).skip(16)) as nat, 16);
        assert(bits::bits_of(out@).len() == 8 * out@.len());
    }
    out
}

/// The auxiliary data of the frame `s`.
pub open spec fn aux_of(s: Seq<bool>) -> Option<Seq<bool>> {
    let total = s.len() as int;
    let n = bits::field(s, total - 32, 14);
    if total < 32 || !bits::bit(s, total - 18) || n == 0 || n > total - 32 {
        None
    } else {
        Some(s.subrange(total - 32 - n, total - 32))
    }
}

/// Read the user aux payload from a frame, if present: its bytes, MSB-first, and its length in bits.
pub fn read_aux(frame: &[u8]) -> (r: Option<(Vec<u8>, usize)>)
    requires
        8 * frame@.len() <= usize::MAX,
    ensures
        r is Some == aux_of(bits::bits_of(frame@)) is Some,
        r matches Some((bytes, n)) ==> {
            let aux = aux_of(bits::bits_of(frame@))->0;
            bytes@ == bits::pack(aux) && n == aux.len()
        },
{
    let ghost s = bits::bits_of(frame@);
    let total = frame.len() * 8;
    if total < 32 {
        return None;
    }
    let mut r = BitReader::at(frame, total - 18);
    if !r.read_bit() {
        return None;
    }
    r.seek(total - 32);
    let auxdatal = r.read(14) as usize;
    if auxdatal == 0 || auxdatal > total - 32 {
        return None;
    }
    let start = total - 32 - auxdatal;
    let mut w = BitWriter::new();
    w.copy_bits_from(frame, start, auxdatal);
    assert(w@ =~= s.subrange(start as int, total - 32));
    Some((w.into_bytes(), auxdatal))
}

/// What `inject_aux` writes, `read_aux` gives back, for every payload whose length its 14-bit field
/// can tell.
pub proof fn law_aux_roundtrip(s: Seq<bool>, payload: Seq<bool>)
    requires
        s.len() >= 48,
        1 <= payload.len() < 16384,
    ensures
        aux_of(sealed(aux_frame(s, payload))) == Some(payload),
{
    let n = payload.len();
    let need = aux_need(s.len() as int, n as int);
    let size = frame_bytes(need);
    let pre = aux_frame(s, payload);
    let out = sealed(pre);
    let head = resized(s, size).take(s.len() - TAIL_BITS) + bits::zeros((8 * size - need) as nat);
    bits::lemma_be_len((size / 2 - 1) as nat, 11);
    bits::lemma_be_len(n, 14);
    bits::lemma_be_len(crc::crc16_of(pre.skip(16)) as nat, 16);
    let total = out.len() as int;
    assert(total == head.len() + n + 32);
    assert(out.subrange(total - 32, total - 18) =~= bits::be(n, 14));
    assert(bits::has(out, total - 32, bits::be(n, 14)));
    bits::lemma_two_values();
    bits::lemma_field_small(out, total - 32, n, 14);
    assert(out[total - 18]);
    assert(out.subrange(total - 32 - n, total - 32) =~= payload);
}

/// A frame that carries its check word proves clean: the check over everything behind the syncword is
/// zero.
pub proof fn law_sealed_clean(pre: Seq<bool>)
    requires
        pre.len() >= 16,
    ensures
        crc::crc16_of(sealed(pre).skip(16)) == 0,
{
    let body = pre.skip(16);
    crc::law_crc16_clean(body);
    assert(sealed(pre).skip(16) =~= body + bits::be(crc::crc16_of(body) as nat, 16));
}

// ------------------------------------------------------------------ additional information

/// The additional bit stream information field with the bits `addbsi`: the flag that announces it,
/// its length in bytes less one, and the bits.
pub open spec fn addbsi_field(addbsi: Seq<bool>) -> Seq<bool> {
    seq![true] + bits::be((addbsi.len() / 8 - 1) as nat, 6) + addbsi
}

/// How many bits a frame of `bits` bits needs with `addbsi` and `n` bits more in the two fields.
pub open spec fn full_need(bits: int, addbsi: int, n: int) -> int {
    bits + addbsi + n + 4 + 16
}

/// The frame `s`, whose `addbsie` stands at `p`, with additional information and auxiliary data, up
/// to the check word.
pub open spec fn full_frame(s: Seq<bool>, p: int, addbsi: Seq<bool>, aux: Seq<bool>) -> Seq<bool> {
    let need = full_need(s.len() as int, addbsi.len() as int, aux.len() as int);
    let size = frame_bytes(need);
    resized(s, size).take(p) + addbsi_field(addbsi) + s.subrange(p + 1, s.len() - TAIL_BITS) + bits::zeros(
        (8 * size - need) as nat,
    ) + aux + bits::be(aux.len(), 14) + seq![true, false]
}

fn write_addbsi(w: &mut BitWriter, addbsi: &[u8])
    requires
        old(w).wf(),
        1 <= addbsi@.len() <= 0x1000_0000,
        8 * addbsi@.len() <= usize::MAX,
    ensures
        final(w).wf(),
        final(w)@ == old(w)@ + addbsi_field(bits::bits_of(addbsi@)),
{
    w.bit(1);  // addbsie = 1
    w.write(addbsi.len() as u32 - 1, 6);  // addbsil
    w.copy_bits(addbsi, addbsi.len() * 8);
    assert(w@ =~= old(w)@ + addbsi_field(bits::bits_of(addbsi@))) by {
        assert(bits::bits_of(addbsi@).take(8 * addbsi@.len() as int) =~= bits::bits_of(addbsi@));
    }
}

/// Inject both the addbsi Atmos flag (front, in `bsi`) and an aux EMDF payload (tail) into one frame
/// in a single grow + crc2 pass. `frame` must have no addbsi yet. Audio blocks are preserved
/// bit-exactly. `addbsi` is the raw addbsi field bytes.
pub fn inject_frame_full(
    frame: &[u8],
    info: &FrameInfo,
    addbsi: &[u8],
    aux: &[u8],
    aux_bits: usize,
) -> (out: Vec<u8>)
    requires
        info.bsid == 16,
        !bits::bit(bits::bits_of(frame@), bsi::addbsie_pos(bits::bits_of(frame@), *info)),
        bsi::addbsie_pos(bits::bits_of(frame@), *info) + 1 <= 8 * frame@.len() - TAIL_BITS,
        addbsi@.len() >= 1,
        aux_bits <= 8 * aux@.len(),
        frame_bytes(
            full_need(8 * frame@.len() as int, 8 * addbsi@.len() as int, aux_bits as int),
        ) <= MAX_FRAME_BYTES,
    ensures
        bits::bits_of(out@) == sealed(
            full_frame(
                bits::bits_of(frame@),
                bsi::addbsie_pos(bits::bits_of(frame@), *info),
                bits::bits_of(addbsi@),
                bits::bits_of(aux@).take(aux_bits as int),
            ),
        ),
        out@.len() == frame_bytes(
            full_need(8 * frame@.len() as int, 8 * addbsi@.len() as int, aux_bits as int),
        ),
{
    let ghost s = bits::bits_of(frame@);
    let ghost n = bits::bits_of(aux@).take(aux_bits as int);
    let l = frame.len() * 8;
    let p: usize = match bsi_addbsie_pos(frame, info) {
        Some((p, _)) => p,
        None => 0,
    };
    let fixed = l + addbsi.len() * 8 + aux_bits + 20;
    let ns = frame_size(fixed);
    let gap = ns * 8 - fixed;
    let fr = resize(frame, ns);
    let mut w = BitWriter::with_capacity(ns);
    w.copy_bits(&fr, p);  // sync + bsi up to (not incl.) addbsie
    write_addbsi(&mut w, addbsi);
    w.copy_bits_from(frame, p + 1, l - TAIL_BITS - (p + 1));  // audfrm + audblks + original padding
    w.zero_bits(gap);
    w.copy_bits(aux, aux_bits);  // EMDF payload
    w.write(aux_bits as u32, 14);  // auxdatal
    w.bit(1);  // auxdatae
    w.bit(0);  // crcrsv
    proof {
        bits::lemma_be_len(aux_bits as nat, 14);
        bits::lemma_be_len((addbsi@.len() - 1) as nat, 6);
        assert(w@ =~= full_frame(s, p as int, bits::bits_of(addbsi@), n));
        assert(w@.len() == 8 * ns - 16);
    }
    let pre = w.finish();
    assert(bits::bits_of(pre@).len() == 8 * pre@.len());
    let out = seal(pre);
    proof {
        bits::lemma_be_len(crc::crc16_of(bits::bits_of(pre@).skip(16)) as nat, 16);
        assert(bits::bits_of(out@).len() == 8 * out@.len());
    }
    out
}

// ------------------------------------------------------------------ skip field

/// Whether the frame has no informational metadata, and can have an all-zero one of nine bits.
pub open spec fn wants_info(s: Seq<bool>, info: FrameInfo) -> bool {
    let q = bsi::infomdate_pos(s, info);
    !bits::bit(s, q) && info.acmod == 7 && info.fscod < 3 && q < bsi::addbsie_pos(s, info)
}

/// Everything in front of `addbsie`, with all-zero informational metadata put in where it is wanted.
pub open spec fn front(s: Seq<bool>, info: FrameInfo, size: int) -> Seq<bool> {
    let p = bsi::addbsie_pos(s, info);
    let q = bsi::infomdate_pos(s, info);
    let r = resized(s, size);
    if wants_info(s, info) {
        r.take(q) + seq![true] + bits::zeros(9) + r.subrange(q + 1, p)
    } else {
        r.take(p)
    }
}

/// The skip field of a block that carries `emdf`, or of one that carries nothing.
pub open spec fn skip_field(emdf: Seq<bool>, carries: bool) -> Seq<bool> {
    if carries {
        seq![true] + bits::be(emdf.len() / 8, 9) + emdf
    } else {
        seq![false]
    }
}

/// Where the part of the frame ends that follows the skip field point of block `b`.
pub open spec fn part_end(points: Seq<int>, body: int, b: int) -> int {
    if b + 1 < 6 {
        points[b + 1]
    } else {
        body
    }
}

/// The first `n` blocks from their skip field points on, each with a skip field put in; the one of
/// block `target` carries `emdf`.
pub open spec fn blocks_with_skip(
    s: Seq<bool>,
    points: Seq<int>,
    emdf: Seq<bool>,
    target: int,
    n: nat,
) -> Seq<bool>
    decreases n,
{
    if n == 0 {
        Seq::empty()
    } else {
        let b = n - 1;
        blocks_with_skip(s, points, emdf, target, b as nat) + skip_field(emdf, b == target)
            + s.subrange(points[b], part_end(points, s.len() - TAIL_BITS, b))
    }
}

/// How many bits the frame needs.
pub open spec fn skip_need(s: Seq<bool>, info: FrameInfo, addbsi: int, emdf: int) -> int {
    let extra = if wants_info(s, info) {
        9int
    } else {
        0
    };
    (s.len() - TAIL_BITS) + extra + (6 + addbsi) + (5 + 1 + 9 + emdf) + 2 + 16
}

/// The frame `s` with additional information, the skip field enable bit set, and `emdf` in the skip
/// field of block `target`, up to the check word.
pub open spec fn skip_frame(
    s: Seq<bool>,
    info: FrameInfo,
    points: Seq<int>,
    addbsi: Seq<bool>,
    emdf: Seq<bool>,
    target: int,
) -> Seq<bool> {
    let p = bsi::addbsie_pos(s, info);
    let need = skip_need(s, info, addbsi.len() as int, emdf.len() as int);
    let size = frame_bytes(need);
    front(s, info, size) + addbsi_field(addbsi) + s.subrange(p + 1, p + 11) + seq![true] + s.subrange(
        p + 12,
        points[0],
    ) + blocks_with_skip(s, points, emdf, target, 6) + bits::zeros((8 * size - need) as nat) + seq![
        false,
        false,
    ]
}

/// Whether the frame can carry `emdf` bytes of EMDF in the skip field of block `target`.
pub open spec fn can_skip(s: Seq<bool>, info: FrameInfo, addbsi: int, emdf: int, target: int) -> bool {
    let p = bsi::addbsie_pos(s, info);
    &&& info.bsid == 16 && !bits::bit(s, p)
    &&& eac3_audblk::frame_walk(s, info, p + 1) is Some
    &&& target < 6
    &&& frame_bytes(skip_need(s, info, 8 * addbsi, 8 * emdf)) <= MAX_FRAME_BYTES
}

proof fn lemma_blocks_len(s: Seq<bool>, points: Seq<int>, emdf: Seq<bool>, target: int, n: nat)
    requires
        n <= 6,
        points.len() == 6,
        forall|i: int, j: int| 0 <= i < j < 6 ==> #[trigger] points[i] < #[trigger] points[j],
        forall|i: int| 0 <= i < 6 ==> 0 <= #[trigger] points[i] <= s.len() - TAIL_BITS,
    ensures
        blocks_with_skip(s, points, emdf, target, n).len() == n + (if 0 <= target < n {
            9 + emdf.len()
        } else {
            0
        }) + (if n == 0 {
            0
        } else {
            part_end(points, s.len() - TAIL_BITS, n - 1) - points[0]
        }),
    decreases n,
{
    if n > 0 {
        lemma_blocks_len(s, points, emdf, target, (n - 1) as nat);
        bits::lemma_be_len(emdf.len() / 8, 9);
        if n > 1 {
            assert(part_end(points, s.len() - TAIL_BITS, n - 2) == points[n - 1]);
        }
        if n < 6 {
            assert(points[n - 1] < points[n as int]);
        }
    }
}

/// Copies the blocks from their skip field points on, putting a skip field in at each.
fn write_blocks(w: &mut BitWriter, frame: &[u8], points: &Vec<usize>, emdf: &[u8], target: usize)
    requires
        old(w).wf(),
        emdf@.len() <= 511,
        8 * frame@.len() <= usize::MAX,
        8 * frame@.len() >= TAIL_BITS,
        points@.len() == 6,
        forall|i: int, j: int| 0 <= i < j < 6 ==> #[trigger] points@[i] < #[trigger] points@[j],
        forall|i: int| 0 <= i < 6 ==> #[trigger] points@[i] <= 8 * frame@.len() - TAIL_BITS,
    ensures
        final(w).wf(),
        final(w)@ == old(w)@ + blocks_with_skip(
            bits::bits_of(frame@),
            points@.map_values(|p: usize| p as int),
            bits::bits_of(emdf@),
            target as int,
            6,
        ),
{
    let ghost s = bits::bits_of(frame@);
    let ghost pts = points@.map_values(|p: usize| p as int);
    let ghost e = bits::bits_of(emdf@);
    let body = frame.len() * 8 - TAIL_BITS;
    let mut b: usize = 0;
    assert(w@ =~= old(w)@ + blocks_with_skip(s, pts, e, target as int, 0));
    while b < 6
        invariant
            b <= 6,
            w.wf(),
            s == bits::bits_of(frame@),
            e == bits::bits_of(emdf@),
            pts == points@.map_values(|p: usize| p as int),
            body == 8 * frame@.len() - TAIL_BITS,
            emdf@.len() <= 511,
            8 * frame@.len() <= usize::MAX,
            points@.len() == 6,
            forall|i: int, j: int| 0 <= i < j < 6 ==> #[trigger] points@[i] < #[trigger] points@[j],
            forall|i: int| 0 <= i < 6 ==> #[trigger] points@[i] <= body,
            w@ == old(w)@ + blocks_with_skip(s, pts, e, target as int, b as nat),
        decreases 6 - b,
    {
        let ghost before = w@;
        if b == target {
            w.bit(1);  // skiple = 1
            w.write(emdf.len() as u32, 9);  // skipl (bytes)
            w.copy_bits(emdf, emdf.len() * 8);
            assert(e.take(8 * emdf@.len() as int) =~= e);
        } else {
            w.bit(0);  // skiple = 0
        }
        assert(w@ =~= before + skip_field(e, b == target));
        let seg_end: usize = if b + 1 < 6 {
            points[b + 1]
        } else {
            body
        };
        let from = points[b];
        assert(from == pts[b as int]);
        assert(seg_end == part_end(pts, body as int, b as int));
        w.copy_bits_from(frame, from, seg_end - from);
        b = b + 1;
        assert(w@ =~= old(w)@ + blocks_with_skip(s, pts, e, target as int, b as nat));
    }
}

/// Copies everything in front of `addbsie` at `p`, putting all-zero informational metadata in behind
/// `infomdate` at `q` where it is wanted.
fn write_front(w: &mut BitWriter, frame: &[u8], p: usize, q: usize, wanted: bool, size: usize, Ghost(
    info,
): Ghost<FrameInfo>)
    requires
        old(w)@.len() == 0,
        old(w).wf(),
        frame@.len() >= 4,
        8 * frame@.len() <= usize::MAX,
        p == bsi::addbsie_pos(bits::bits_of(frame@), info),
        q == bsi::infomdate_pos(bits::bits_of(frame@), info),
        q < p <= 8 * frame@.len(),
        wanted == wants_info(bits::bits_of(frame@), info),
        2 <= size <= MAX_FRAME_BYTES,
    ensures
        final(w).wf(),
        final(w)@ == front(bits::bits_of(frame@), info, size as int),
{
    let ghost r = resized(bits::bits_of(frame@), size as int);
    let fr = resize(frame, size);
    if wanted {
        w.copy_bits(&fr, q);  // bsi up to the infomdate flag
        w.bit(1);  // infomdate = 1
        w.zero_bits(9);  // info_metadata() body, all zero
        w.copy_bits_from(&fr, q + 1, p - (q + 1));
        assert(w@ =~= r.take(q as int) + seq![true] + bits::zeros(9) + r.subrange(q + 1, p as int));
    } else {
        w.copy_bits(&fr, p);
        assert(w@ =~= r.take(p as int));
    }
}

/// Puts the frame together, all conditions being met.
fn build_skip_frame(
    frame: &[u8],
    info: &FrameInfo,
    addbsi: &[u8],
    emdf: &[u8],
    target_block: usize,
    points: &Vec<usize>,
    p: usize,
    q: usize,
    wanted: bool,
    skipfld_bit: usize,
    fixed: usize,
) -> (out: Vec<u8>)
    requires
        emdf@.len() <= 511,
        addbsi@.len() >= 1,
        target_block < 6,
        p == bsi::addbsie_pos(bits::bits_of(frame@), *info),
        q == bsi::infomdate_pos(bits::bits_of(frame@), *info),
        wanted == wants_info(bits::bits_of(frame@), *info),
        q < p,
        skipfld_bit == p + 11,
        points@.len() == 6,
        forall|i: int, j: int| 0 <= i < j < 6 ==> #[trigger] points@[i] < #[trigger] points@[j],
        forall|i: int|
            0 <= i < 6 ==> p + 11 < #[trigger] points@[i] <= 8 * frame@.len() - TAIL_BITS,
        fixed == skip_need(
            bits::bits_of(frame@),
            *info,
            8 * addbsi@.len() as int,
            8 * emdf@.len() as int,
        ),
        frame_bytes(fixed as int) <= MAX_FRAME_BYTES,
    ensures
        bits::bits_of(out@) == sealed(
            skip_frame(
                bits::bits_of(frame@),
                *info,
                points@.map_values(|p: usize| p as int),
                bits::bits_of(addbsi@),
                bits::bits_of(emdf@),
                target_block as int,
            ),
        ),
{
    let ghost s = bits::bits_of(frame@);
    let ghost a = bits::bits_of(addbsi@);
    let ghost e = bits::bits_of(emdf@);
    let ghost pts = points@.map_values(|p: usize| p as int);
    let ns = frame_size(fixed);
    let gap = ns * 8 - fixed;
    assert(p + 11 < points@[0] <= 8 * frame@.len() - TAIL_BITS);
    let mut w = BitWriter::with_capacity(ns);
    write_front(&mut w, frame, p, q, wanted, ns, Ghost(*info));
    let ghost w0 = w@;
    write_addbsi(&mut w, addbsi);
    let ghost w1 = w@;
    // Rest of bsi + audfrm up to the skip field enable bit, which is set.
    w.copy_bits_from(frame, p + 1, skipfld_bit - (p + 1));
    w.bit(1);
    // Rest of audfrm + start of block 0.
    let first = points[0];
    w.copy_bits_from(frame, skipfld_bit + 1, first - (skipfld_bit + 1));
    let ghost w2 = w@;
    write_blocks(&mut w, frame, points, emdf, target_block);
    let ghost w3 = w@;
    w.zero_bits(gap);
    w.bit(0);  // auxdatae = 0
    w.bit(0);  // crcrsv = 0
    proof {
        assert(pts[0] == first);
        assert(w2 =~= w1 + s.subrange(p + 1, p + 11) + seq![true] + s.subrange(p + 12, pts[0]));
        assert(w@ =~= w3 + bits::zeros(gap as nat) + seq![false, false]);
        assert(w@ == skip_frame(s, *info, pts, a, e, target_block as int));
        assert forall|i: int, j: int| 0 <= i < j < 6 implies #[trigger] pts[i] < #[trigger] pts[j] by {
            assert(points@[i] < points@[j]);
        }
        assert forall|i: int| 0 <= i < 6 implies 0 <= #[trigger] pts[i] <= s.len() - TAIL_BITS by {
            assert(points@[i] <= 8 * frame@.len() - TAIL_BITS);
        }
        lemma_blocks_len(s, pts, e, target_block as int, 6);
        bits::lemma_be_len((ns / 2 - 1) as nat, 11);
        bits::lemma_be_len((addbsi@.len() - 1) as nat, 6);
        assert(w0.len() == p + (if wanted {
            9int
        } else {
            0
        }));
        assert(w@.len() == 8 * ns - 16);
    }
    let pre = w.finish();
    assert(bits::bits_of(pre@).len() == 8 * pre@.len());
    seal(pre)
}

/// Inject the addbsi Atmos flag (front, in bsi) **and** carry the EMDF in an audio-block **skip
/// field** (mid-frame). This enables the skip field syntax in audfrm and writes a `skiple` flag at
/// every block's skip-field point (the EMDF rides in `target_block`; the rest get `skiple=0`).
/// Returns None if the frame's audio blocks use features outside the supported subset (the caller may
/// fall back to aux carriage).
///
/// A core without info_metadata gets an all-zero one. The audio mantissa data is copied verbatim, so
/// the decoded PCM is unchanged; only frmsiz and crc2 are recomputed.
pub fn inject_frame_skipfield(
    frame: &[u8],
    info: &FrameInfo,
    addbsi: &[u8],
    emdf: &[u8],
    target_block: usize,
) -> (r: Option<Vec<u8>>)
    requires
        emdf@.len() <= 511,
        addbsi@.len() >= 1,
        frame@.len() + addbsi@.len() <= usize::MAX / 8 - 10000,
        can_skip(
            bits::bits_of(frame@),
            *info,
            addbsi@.len() as int,
            emdf@.len() as int,
            target_block as int,
        ) ==> eac3_audblk::frame_walk(
            bits::bits_of(frame@),
            *info,
            bsi::addbsie_pos(bits::bits_of(frame@), *info) + 1,
        )->0.points[5] <= 8 * frame@.len() - TAIL_BITS,
    ensures
        r is Some == can_skip(
            bits::bits_of(frame@),
            *info,
            addbsi@.len() as int,
            emdf@.len() as int,
            target_block as int,
        ),
        r matches Some(out) ==> bits::bits_of(out@) == sealed(
            skip_frame(
                bits::bits_of(frame@),
                *info,
                eac3_audblk::frame_walk(
                    bits::bits_of(frame@),
                    *info,
                    bsi::addbsie_pos(bits::bits_of(frame@), *info) + 1,
                )->0.points,
                bits::bits_of(addbsi@),
                bits::bits_of(emdf@),
                target_block as int,
            ),
        ),
{
    let ghost s = bits::bits_of(frame@);
    let l = frame.len() * 8;
    let p: usize = match bsi_addbsie_pos(frame, info) {
        Some((p, false)) => p,
        _ => {
            return None;
        },
    };
    let skipfld_bit: usize = match skipfld_enable_bit(frame, info, p + 1) {
        Some(b) => b,
        None => {
            return None;
        },
    };
    let points = match skip_points(frame, info, p + 1) {
        Some((points, _)) => points,
        None => {
            return None;
        },
    };
    if target_block >= 6 {
        return None;
    }
    let (info_pos, info_val) = match bsi_infomdate_pos(frame, info) {
        Some(q) => q,
        None => {
            return None;
        },
    };
    let insert_info = !info_val && info.acmod == 7 && info.fscod < 3 && info_pos < p;
    let info_extra: usize = if insert_info {
        9
    } else {
        0
    };
    proof {
        bsi::lemma_bsi_bounds(s, *info);
        eac3_audblk::law_points_increase(s, *info, p + 1);
    }
    if l < TAIL_BITS {
        return None;
    }
    let fixed = (l - TAIL_BITS) + info_extra + (6 + addbsi.len() * 8) + (5 + 1 + 9 + emdf.len() * 8)
        + 18;
    let ns = frame_size(fixed);
    if ns > MAX_FRAME_BYTES {
        return None;
    }
    let ghost pts = points@.map_values(|p: usize| p as int);
    proof {
        assert forall|i: int| 0 <= i < 6 implies p + 11 < #[trigger] points@[i] <= l - TAIL_BITS by {
            assert(pts[i] == points@[i]);
            assert(pts[i] <= pts[5]);
        }
        assert forall|i: int, j: int| 0 <= i < j < 6 implies #[trigger] points@[i]
            < #[trigger] points@[j] by {
            assert(pts[i] == points@[i] && pts[j] == points@[j]);
        }
    }
    Some(
        build_skip_frame(
            frame,
            info,
            addbsi,
            emdf,
            target_block,
            &points,
            p,
            info_pos,
            insert_info,
            skipfld_bit,
            fixed,
        ),
    )
}

// ------------------------------------------------------------------ replacing an EMDF container

/// Where the second byte of the additional information, the complexity index, stands.
pub open spec fn complexity_pos(s: Seq<bool>, info: FrameInfo) -> int {
    bsi::addbsie_pos(s, info) + 15
}

/// The frame `s` in front of `emdf_bit`, with the complexity index replaced where a new one is given.
pub open spec fn spliced_front(
    s: Seq<bool>,
    info: FrameInfo,
    emdf_bit: int,
    complexity: Option<u8>,
) -> Seq<bool> {
    let c = complexity_pos(s, info);
    match complexity {
        Some(cx) => s.take(c) + bits::be(cx as nat, 8) + s.subrange(c + 8, emdf_bit),
        None => s.take(emdf_bit),
    }
}

/// The frame `s` with the `len` bytes at `emdf_bit` replaced by `emdf` and zeros behind it.
pub open spec fn spliced(
    s: Seq<bool>,
    info: FrameInfo,
    emdf_bit: int,
    len: int,
    emdf: Seq<bool>,
    complexity: Option<u8>,
) -> Seq<bool> {
    spliced_front(s, info, emdf_bit, complexity) + emdf + bits::zeros((8 * len - emdf.len()) as nat) + s.skip(
        emdf_bit + 8 * len,
    )
}

/// Whether `emdf` bytes fit in the `len` bytes at `emdf_bit` of a frame that has additional
/// information in front of them.
pub open spec fn can_splice(
    s: Seq<bool>,
    info: FrameInfo,
    emdf_bit: int,
    len: int,
    emdf: int,
) -> bool {
    &&& emdf <= len
    &&& emdf_bit + 8 * len <= s.len()
    &&& info.bsid == 16 && bits::bit(s, bsi::addbsie_pos(s, info))
    &&& complexity_pos(s, info) + 8 <= emdf_bit
}

/// Copies the frame in front of `emdf_bit`, with the complexity index replaced.
fn write_spliced_front(
    w: &mut BitWriter,
    frame: &[u8],
    complexity_bit: usize,
    emdf_bit: usize,
    complexity: Option<u8>,
    Ghost(info): Ghost<FrameInfo>,
)
    requires
        old(w).wf(),
        old(w)@.len() == 0,
        8 * frame@.len() <= usize::MAX,
        complexity_bit == complexity_pos(bits::bits_of(frame@), info),
        complexity_bit + 8 <= emdf_bit <= 8 * frame@.len(),
    ensures
        final(w).wf(),
        final(w)@ == spliced_front(bits::bits_of(frame@), info, emdf_bit as int, complexity),
        final(w)@.len() == emdf_bit,
{
    let ghost s = bits::bits_of(frame@);
    match complexity {
        Some(cx) => {
            w.copy_bits(frame, complexity_bit);
            w.write(cx as u32, 8);
            let cur = complexity_bit + 8;
            w.copy_bits_from(frame, cur, emdf_bit - cur);
            proof {
                bits::lemma_be_len(cx as nat, 8);
            }
            assert(w@ =~= s.take(complexity_bit as int) + bits::be(cx as nat, 8) + s.subrange(
                complexity_bit + 8,
                emdf_bit as int,
            ));
        },
        None => {
            w.copy_bits(frame, emdf_bit);
            assert(w@ =~= s.take(emdf_bit as int));
        },
    }
}

/// Replaces the check word.
fn reseal(frame: Vec<u8>) -> (r: Vec<u8>)
    requires
        frame@.len() >= 4,
    ensures
        bits::bits_of(r@) == sealed(bits::bits_of(frame@).take(8 * frame@.len() - 16)),
{
    let mut out = frame;
    let n = out.len();
    let ghost full = out@;
    out.truncate(n - 2);
    proof {
        assert(full.take(n - 2) =~= full.subrange(0, n - 2));
        bits::lemma_bits_subrange(full, 0, n - 2);
        assert(bits::bits_of(out@) =~= bits::bits_of(full).take(8 * full.len() - 16));
    }
    seal(out)
}

/// Puts the spliced frame together, all conditions being met.
fn build_spliced(
    frame: &[u8],
    complexity_bit: usize,
    emdf_bit: usize,
    native_len: usize,
    my_emdf: &[u8],
    complexity: Option<u8>,
    Ghost(info): Ghost<FrameInfo>,
) -> (out: Vec<u8>)
    requires
        8 * frame@.len() <= usize::MAX,
        emdf_bit + 8 * native_len <= 8 * frame@.len(),
        my_emdf@.len() <= native_len,
        complexity_bit == complexity_pos(bits::bits_of(frame@), info),
        complexity_bit + 8 <= emdf_bit,
        frame@.len() >= 4,
    ensures
        bits::bits_of(out@) == sealed(
            spliced(
                bits::bits_of(frame@),
                info,
                emdf_bit as int,
                native_len as int,
                bits::bits_of(my_emdf@),
                complexity,
            ).take(8 * frame@.len() - 16),
        ),
{
    let ghost s = bits::bits_of(frame@);
    let ghost e = bits::bits_of(my_emdf@);
    let total = frame.len() * 8;
    let after = emdf_bit + native_len * 8;
    let mut w = BitWriter::with_capacity(frame.len());
    write_spliced_front(&mut w, frame, complexity_bit, emdf_bit, complexity, Ghost(info));
    let ghost f = w@;
    w.copy_bits(my_emdf, my_emdf.len() * 8);
    w.zero_bits((native_len - my_emdf.len()) * 8);
    w.copy_bits_from(frame, after, total - after);
    proof {
        assert(e.take(8 * my_emdf@.len() as int) =~= e);
        assert(s.subrange(after as int, total as int) =~= s.skip(after as int));
        assert(w@ == f + e + bits::zeros((8 * native_len - e.len()) as nat) + s.skip(after as int));
        assert(w@.len() == total);
    }
    let out = w.finish();
    assert(bits::bits_of(out@).len() == 8 * out@.len());
    reseal(out)
}

/// Replace a core's native EMDF (in its skip field) with `my_emdf`, in place, **without** parsing the
/// (possibly coupled) audio blocks. The whole frame is an opaque bit-copy except: (1) the addbsi
/// complexity byte (patched to `new_complexity`), and (2) the `native_len`-byte EMDF container at
/// `emdf_bit` (overwritten with `my_emdf` padded with zeros to `native_len`). Frame size is unchanged;
/// only crc2 is recomputed. Returns None if `my_emdf` does not fit.
pub fn splice_emdf_into_core(
    frame: &[u8],
    info: &FrameInfo,
    emdf_bit: usize,
    native_len: usize,
    my_emdf: &[u8],
    new_complexity: Option<u8>,
) -> (r: Option<Vec<u8>>)
    requires
        8 * frame@.len() <= usize::MAX,
        emdf_bit + 8 * native_len <= usize::MAX,
    ensures
        r is Some == can_splice(
            bits::bits_of(frame@),
            *info,
            emdf_bit as int,
            native_len as int,
            my_emdf@.len() as int,
        ),
        r matches Some(out) ==> bits::bits_of(out@) == sealed(
            spliced(
                bits::bits_of(frame@),
                *info,
                emdf_bit as int,
                native_len as int,
                bits::bits_of(my_emdf@),
                new_complexity,
            ).take(8 * frame@.len() - 16),
        ),
{
    let ghost s = bits::bits_of(frame@);
    if my_emdf.len() > native_len {
        return None;
    }
    let total = frame.len() * 8;
    let after = emdf_bit + native_len * 8;
    if after > total {
        return None;
    }
    let p: usize = match bsi_addbsie_pos(frame, info) {
        Some((p, true)) => p,
        _ => {
            return None;
        },
    };
    let complexity_bit = p + 1 + 6 + 8;
    if complexity_bit + 8 > emdf_bit {
        return None;
    }
    assert(frame@.len() >= 4) by {
        assert(complexity_bit + 8 <= 8 * frame@.len());
    }
    Some(
        build_spliced(
            frame,
            complexity_bit,
            emdf_bit,
            native_len,
            my_emdf,
            new_complexity,
            Ghost(*info),
        ),
    )
}

// ------------------------------------------------------------------ what injection keeps

/// Frames that agree in front of bit 45, but for the size field, have the same header but for the
/// size.
proof fn lemma_header_ext(s: Seq<bool>, t: Seq<bool>, size: int, off: int)
    requires
        bsi::agree(s, t, 16, 21),
        bsi::agree(s, t, 32, 45),
        bits::has(t, 21, bits::be((size / 2 - 1) as nat, 11)),
        t.len() >= 45,
        2 <= size <= MAX_FRAME_BYTES,
        size % 2 == 0,
    ensures
        eac3::header_bits(t, off) == (FrameInfo { size: size as usize, ..eac3::header_bits(s, off) }),
{
    bsi::lemma_agree_field(s, t, 16, 21, 16, 2);
    bsi::lemma_agree_field(s, t, 16, 21, 18, 3);
    bsi::lemma_agree_field(s, t, 32, 45, 32, 2);
    bsi::lemma_agree_field(s, t, 32, 45, 34, 2);
    bsi::lemma_agree_field(s, t, 32, 45, 36, 3);
    bsi::lemma_agree_field(s, t, 32, 45, 39, 1);
    bsi::lemma_agree_field(s, t, 32, 45, 40, 5);
    bits::lemma_two_values();
    bits::lemma_field_small(t, 21, (size / 2 - 1) as nat, 11);
}

/// A frame that starts as the resized `s` does has its header, with the new size.
proof fn lemma_resized_header(s: Seq<bool>, t: Seq<bool>, size: int, n: int, off: int)
    requires
        45 <= n <= s.len(),
        n <= t.len(),
        t.take(n) == resized(s, size).take(n),
        2 <= size <= MAX_FRAME_BYTES,
        size % 2 == 0,
    ensures
        eac3::header_bits(t, off) == (FrameInfo { size: size as usize, ..eac3::header_bits(s, off) }),
        bsi::agree(s, t, 32, n),
{
    let v = (size / 2 - 1) as nat;
    let r = resized(s, size);
    bits::lemma_be_len(v, 11);
    assert forall|i: int| 16 <= i < 21 implies #[trigger] bits::bit(s, i) == bits::bit(t, i) by {
        assert(t.take(n)[i] == r.take(n)[i]);
        assert(r[i] == s[i]);
    }
    assert forall|i: int| 32 <= i < n implies #[trigger] bits::bit(s, i) == bits::bit(t, i) by {
        assert(t.take(n)[i] == r.take(n)[i]);
        assert(r[i] == s[i]);
    }
    assert forall|i: int| 0 <= i < 11 implies #[trigger] bits::be(v, 11)[i] == t[21 + i] by {
        assert(t.take(n)[21 + i] == r.take(n)[21 + i]);
        assert(r[21 + i] == bits::be(v, 11)[i]);
    }
    lemma_header_ext(s, t, size, off);
}

/// An injected frame fills its bytes.
pub proof fn lemma_aux_size(s: Seq<bool>, payload: Seq<bool>)
    requires
        s.len() >= 48,
    ensures
        sealed(aux_frame(s, payload)).len() == 8 * frame_bytes(
            aux_need(s.len() as int, payload.len() as int),
        ),
{
    let size = frame_bytes(aux_need(s.len() as int, payload.len() as int));
    let pre = aux_frame(s, payload);
    bits::lemma_be_len((size / 2 - 1) as nat, 11);
    bits::lemma_be_len(payload.len(), 14);
    bits::lemma_be_len(crc::crc16_of(pre.skip(16)) as nat, 16);
}

/// An injected frame has the header of the frame it was made from, with its new size, which is its
/// length; and the audio data stands where it stood.
#[verifier::spinoff_prover]
pub proof fn law_aux_keeps_audio(s: Seq<bool>, payload: Seq<bool>, off: int)
    requires
        s.len() >= 64,
        frame_bytes(aux_need(s.len() as int, payload.len() as int)) <= MAX_FRAME_BYTES,
    ensures
        ({
            let out = sealed(aux_frame(s, payload));
            let size = frame_bytes(aux_need(s.len() as int, payload.len() as int));
            &&& out.len() == 8 * size
            &&& eac3::header_bits(out, off) == (FrameInfo { size: size as usize, ..eac3::header_bits(s, off) })
            &&& out.subrange(32, s.len() - TAIL_BITS) == s.subrange(32, s.len() - TAIL_BITS)
            &&& out.take(16) == s.take(16)
        }),
{
    let need = aux_need(s.len() as int, payload.len() as int);
    let size = frame_bytes(need);
    let pre = aux_frame(s, payload);
    let out = sealed(pre);
    let n = s.len() - TAIL_BITS;
    bits::lemma_be_len((size / 2 - 1) as nat, 11);
    bits::lemma_be_len(payload.len(), 14);
    bits::lemma_be_len(crc::crc16_of(pre.skip(16)) as nat, 16);
    assert(out.take(n) =~= resized(s, size).take(n));
    lemma_resized_header(s, out, size, n, off);
    let r = resized(s, size);
    assert forall|i: int| 0 <= i < n && !(21 <= i < 32) implies out[i] == #[trigger] s[i] by {
        assert(out.take(n)[i] == r.take(n)[i]);
        assert(r[i] == s[i]);
    }
    assert(out.subrange(32, n) =~= s.subrange(32, n));
    assert(out.take(16) =~= s.take(16));
}

/// Reading the bytes where they stand.
proof fn lemma_bytes_at(s: Seq<bool>, pos: int, b: Seq<u8>)
    requires
        bits::has(s, pos, bits::bits_of(b)),
        0 <= pos,
        pos + 8 * b.len() <= s.len(),
    ensures
        bsi::bytes_at(s, pos, b.len()) == b,
{
    let t = bits::bits_of(b);
    assert forall|i: int| 0 <= i < b.len() implies #[trigger] bsi::bytes_at(s, pos, b.len())[i] == b[i] by {
        bits::lemma_pack_of_bits(b);
        assert(bits::pack(t)[i] == b[i]);
        assert forall|k: int| 0 <= k < 8 implies bits::bit(s, #[trigger] (pos + 8 * i + k)) == bits::bit(
            t,
            8 * i + k,
        ) by {
            assert(t[8 * i + k] == s[pos + (8 * i + k)]);
        }
        bits::lemma_field_ext(s, pos + 8 * i, t, 8 * i, 8);
    }
    assert(bsi::bytes_at(s, pos, b.len()) =~= b);
}

/// The additional information field stands at `p` of `t`, where the `addbsie` of a frame with the same
/// layout stands.
proof fn lemma_addbsi_read(t: Seq<bool>, info: FrameInfo, p: int, b: Seq<u8>)
    requires
        p == bsi::addbsie_pos(t, info),
        1 <= b.len() <= 64,
        bits::has(t, p, addbsi_field(bits::bits_of(b))),
        p + 7 + 8 * b.len() <= t.len(),
    ensures
        bits::bit(t, p),
        bsi::addbsi_len(t, info) == b.len(),
        bsi::bytes_at(t, p + 7, b.len()) == b,
        bsi::audfrm_pos(t, info) == p + 7 + 8 * b.len(),
{
    let v = (b.len() - 1) as nat;
    let f = bits::bits_of(b);
    bsi::lemma_bsi_bounds(t, info);
    bits::lemma_be_len(v, 6);
    assert(f.len() / 8 - 1 == v);
    bits::lemma_has_split(t, p, seq![true] + bits::be(v, 6), f);
    bits::lemma_has_split(t, p, seq![true], bits::be(v, 6));
    bits::lemma_has_bit(t, p, true);
    bits::lemma_two_values();
    bits::lemma_field_small(t, p + 1, v, 6);
    lemma_bytes_at(t, p + 7, b);
}

/// What `inject_frame_full` writes reads back: the additional information, the header with the new size,
/// and the auxiliary data, where their 14-bit field can tell their length; and everything between the
/// two fields is copied, to where the audio frame starts.
#[verifier::spinoff_prover]
pub proof fn law_full_roundtrip(
    s: Seq<bool>,
    info: FrameInfo,
    out_info: FrameInfo,
    addbsi: Seq<u8>,
    aux: Seq<bool>,
    off: int,
)
    requires
        bsi::same_layout(info, out_info),
        bsi::addbsie_pos(s, info) + 1 <= s.len() - TAIL_BITS,
        1 <= addbsi.len() <= 64,
        frame_bytes(full_need(s.len() as int, 8 * addbsi.len() as int, aux.len() as int))
            <= MAX_FRAME_BYTES,
    ensures
        ({
            let p = bsi::addbsie_pos(s, info);
            let out = sealed(full_frame(s, p, bits::bits_of(addbsi), aux));
            let size = frame_bytes(
                full_need(s.len() as int, 8 * addbsi.len() as int, aux.len() as int),
            );
            let q = bsi::audfrm_pos(out, out_info);
            &&& out.len() == 8 * size
            &&& eac3::header_bits(out, off) == (FrameInfo { size: size as usize, ..eac3::header_bits(s, off) })
            &&& bsi::addbsie_pos(out, out_info) == p && bits::bit(out, p)
            &&& bsi::addbsi_len(out, out_info) == addbsi.len()
            &&& bsi::bytes_at(out, p + 7, addbsi.len()) == addbsi
            &&& 1 <= aux.len() < 16384 ==> aux_of(out) == Some(aux)
            &&& q == p + 7 + 8 * addbsi.len()
            &&& out.subrange(q, q + s.len() - TAIL_BITS - (p + 1)) == s.subrange(
                p + 1,
                s.len() - TAIL_BITS,
            )
        }),
{
    let p = bsi::addbsie_pos(s, info);
    let a = bits::bits_of(addbsi);
    let need = full_need(s.len() as int, a.len() as int, aux.len() as int);
    let size = frame_bytes(need);
    let pre = full_frame(s, p, a, aux);
    let out = sealed(pre);
    let v = (addbsi.len() - 1) as nat;
    let n = aux.len();
    let total = out.len() as int;
    bsi::lemma_bsi_bounds(s, info);
    bits::lemma_be_len((size / 2 - 1) as nat, 11);
    bits::lemma_be_len(v, 6);
    bits::lemma_be_len(n, 14);
    bits::lemma_be_len(crc::crc16_of(pre.skip(16)) as nat, 16);
    assert(a.len() / 8 - 1 == v);
    assert(total == 8 * size);
    assert(out.take(p) =~= resized(s, size).take(p));
    lemma_resized_header(s, out, size, p, off);
    bsi::lemma_addbsie_ext(s, out, info, out_info);
    assert(out.subrange(p, p + 7 + a.len()) =~= addbsi_field(a));
    assert(bits::has(out, p, addbsi_field(a))) by {
        assert forall|i: int| 0 <= i < addbsi_field(a).len() implies #[trigger] addbsi_field(a)[i]
            == out[p + i] by {
            assert(out.subrange(p, p + 7 + a.len())[i] == out[p + i]);
        }
    }
    lemma_addbsi_read(out, out_info, p, addbsi);
    let q = p + 7 + a.len();
    assert(out.subrange(q, q + s.len() - TAIL_BITS - (p + 1)) =~= s.subrange(
        p + 1,
        s.len() - TAIL_BITS,
    ));
    if 1 <= n < 16384 {
        lemma_full_aux(s, p, a, aux);
    }
}

/// A frame with additional information and auxiliary data fills its bytes.
pub proof fn lemma_full_size(s: Seq<bool>, p: int, addbsi: Seq<bool>, aux: Seq<bool>)
    requires
        32 <= p,
        p + 1 <= s.len() - TAIL_BITS,
        addbsi.len() >= 8,
    ensures
        sealed(full_frame(s, p, addbsi, aux)).len() == 8 * frame_bytes(
            full_need(s.len() as int, addbsi.len() as int, aux.len() as int),
        ),
{
    let size = frame_bytes(full_need(s.len() as int, addbsi.len() as int, aux.len() as int));
    let pre = full_frame(s, p, addbsi, aux);
    bits::lemma_be_len((size / 2 - 1) as nat, 11);
    bits::lemma_be_len((addbsi.len() / 8 - 1) as nat, 6);
    bits::lemma_be_len(aux.len(), 14);
    bits::lemma_be_len(crc::crc16_of(pre.skip(16)) as nat, 16);
}

/// Its auxiliary data read back.
pub proof fn lemma_full_aux(s: Seq<bool>, p: int, addbsi: Seq<bool>, aux: Seq<bool>)
    requires
        32 <= p,
        p + 1 <= s.len() - TAIL_BITS,
        1 <= aux.len() < 16384,
    ensures
        aux_of(sealed(full_frame(s, p, addbsi, aux))) == Some(aux),
{
    let pre = full_frame(s, p, addbsi, aux);
    let out = sealed(pre);
    let n = aux.len();
    let total = out.len() as int;
    bits::lemma_be_len(n, 14);
    bits::lemma_be_len(crc::crc16_of(pre.skip(16)) as nat, 16);
    assert(out.subrange(total - 32, total - 18) =~= bits::be(n, 14));
    assert(bits::has(out, total - 32, bits::be(n, 14))) by {
        assert forall|i: int| 0 <= i < bits::be(n, 14).len() implies #[trigger] bits::be(n, 14)[i] == out[total
            - 32 + i] by {
            assert(out.subrange(total - 32, total - 18)[i] == out[total - 32 + i]);
        }
    }
    bits::lemma_two_values();
    bits::lemma_field_small(out, total - 32, n, 14);
    assert(out[total - 18]);
    assert(out.subrange(total - 32 - n, total - 32) =~= aux);
}

proof fn lemma_blocks_prefix(
    s: Seq<bool>,
    points: Seq<int>,
    emdf: Seq<bool>,
    target: int,
    m: nat,
    n: nat,
)
    requires
        m <= n,
    ensures
        blocks_with_skip(s, points, emdf, target, m).len() <= blocks_with_skip(
            s,
            points,
            emdf,
            target,
            n,
        ).len(),
        blocks_with_skip(s, points, emdf, target, n).take(
            blocks_with_skip(s, points, emdf, target, m).len() as int,
        ) == blocks_with_skip(s, points, emdf, target, m),
    decreases n,
{
    let k = blocks_with_skip(s, points, emdf, target, m).len() as int;
    if m < n {
        lemma_blocks_prefix(s, points, emdf, target, m, (n - 1) as nat);
        let shorter = blocks_with_skip(s, points, emdf, target, (n - 1) as nat);
        let longer = blocks_with_skip(s, points, emdf, target, n);
        assert(longer.take(k) =~= shorter.take(k));
    } else {
        let b = blocks_with_skip(s, points, emdf, target, n);
        assert(b.take(k) =~= b);
    }
}

/// Where block `b` with its skip field stands among the blocks.
pub open spec fn part_start(points: Seq<int>, emdf: int, target: int, b: int) -> int {
    points[b] - points[0] + b + (if target < b {
        9 + emdf
    } else {
        0
    })
}

#[verifier::spinoff_prover]
proof fn lemma_block_part(s: Seq<bool>, points: Seq<int>, emdf: Seq<bool>, target: int, b: int)
    requires
        0 <= b < 6,
        0 <= target < 6,
        points.len() == 6,
        forall|i: int, j: int| 0 <= i < j < 6 ==> #[trigger] points[i] < #[trigger] points[j],
        forall|i: int| 0 <= i < 6 ==> 0 <= #[trigger] points[i] <= s.len() - TAIL_BITS,
    ensures
        ({
            let start = part_start(points, emdf.len() as int, target, b);
            let piece = skip_field(emdf, b == target) + s.subrange(
                points[b],
                part_end(points, s.len() - TAIL_BITS, b),
            );
            let all = blocks_with_skip(s, points, emdf, target, 6);
            &&& 0 <= start
            &&& start + piece.len() <= all.len()
            &&& all.subrange(start, start + piece.len()) == piece
        }),
{
    let all = blocks_with_skip(s, points, emdf, target, 6);
    let start = part_start(points, emdf.len() as int, target, b);
    let piece = skip_field(emdf, b == target) + s.subrange(
        points[b],
        part_end(points, s.len() - TAIL_BITS, b),
    );
    let before = blocks_with_skip(s, points, emdf, target, b as nat);
    let upto = blocks_with_skip(s, points, emdf, target, (b + 1) as nat);
    lemma_blocks_len(s, points, emdf, target, b as nat);
    assert(before.len() == start);
    assert(upto =~= before + piece);
    lemma_blocks_prefix(s, points, emdf, target, (b + 1) as nat, 6);
    assert(all.subrange(start, start + piece.len()) =~= upto.subrange(start, start + piece.len()));
    assert(upto.subrange(start, start + piece.len()) =~= piece);
}

/// All-zero informational metadata moves `addbsie` by its nine bits.
#[verifier::spinoff_prover]
proof fn lemma_front_moves(s: Seq<bool>, t: Seq<bool>, info: FrameInfo, out_info: FrameInfo, size: int)
    requires
        bsi::same_layout(info, out_info),
        info.blocks == 6,
        2 <= size <= MAX_FRAME_BYTES,
        bsi::addbsie_pos(s, info) <= s.len(),
        front(s, info, size).len() <= t.len(),
        t.take(front(s, info, size).len() as int) == front(s, info, size),
    ensures
        front(s, info, size).len() == bsi::addbsie_pos(s, info) + (if wants_info(s, info) {
            9int
        } else {
            0
        }),
        bsi::addbsie_pos(t, out_info) == front(s, info, size).len(),
        bsi::infomdate_pos(t, out_info) == bsi::infomdate_pos(s, info),
        bits::bit(t, bsi::infomdate_pos(s, info)) == (wants_info(s, info) || bits::bit(
            s,
            bsi::infomdate_pos(s, info),
        )),
        t.take(bsi::infomdate_pos(s, info)) == resized(s, size).take(bsi::infomdate_pos(s, info)),
{
    reveal(bsi::addbsie_pos);
    let p = bsi::addbsie_pos(s, info);
    let q = bsi::infomdate_pos(s, info);
    let r = resized(s, size);
    let f = front(s, info, size);
    bsi::lemma_bsi_bounds(s, info);
    bits::lemma_be_len((size / 2 - 1) as nat, 11);
    assert(r.len() == s.len());
    assert forall|i: int| 0 <= i < f.len() implies t[i] == #[trigger] f[i] by {
        assert(t.take(f.len() as int)[i] == t[i]);
    }
    assert forall|i: int| 45 <= i < q implies #[trigger] bits::bit(s, i) == bits::bit(t, i) by {
        assert(f[i] == r[i]);
        assert(r[i] == s[i]);
    }
    bsi::lemma_infomdate_ext(s, t, info, out_info);
    assert(t.take(q) =~= r.take(q)) by {
        assert forall|i: int| 0 <= i < q implies t[i] == #[trigger] r[i] by {
            assert(f[i] == r[i]);
        }
    }
    if wants_info(s, info) {
        assert(p == q + 1);
        assert(f[q]);
        assert(t[q] == f[q]);
        assert(!f[q + 8]);
        assert(t[q + 8] == f[q + 8]);
    } else {
        assert forall|i: int| 45 <= i < p implies #[trigger] bits::bit(s, i) == bits::bit(t, i) by {
            assert(f[i] == r[i]);
            assert(r[i] == s[i]);
        }
        bsi::lemma_addbsie_ext(s, t, info, out_info);
        assert(bits::bit(s, q) == bits::bit(t, q));
    }
}

/// The parts of a frame stand one behind the other.
proof fn lemma_parts(
    f: Seq<bool>,
    field: Seq<bool>,
    m1: Seq<bool>,
    m2: Seq<bool>,
    blocks: Seq<bool>,
    tail: Seq<bool>,
    crc: Seq<bool>,
)
    ensures
        ({
            let out = f + field + m1 + seq![true] + m2 + blocks + tail + seq![false, false] + crc;
            let n0 = f.len() as int;
            let n1 = n0 + field.len();
            let base = n1 + m1.len() + 1 + m2.len();
            &&& out.len() == base + blocks.len() + tail.len() + 2 + crc.len()
            &&& out.take(n0) == f
            &&& out.subrange(n0, n1) == field
            &&& bits::has(out, n0, field)
            &&& out[n1 + m1.len()]
            &&& out.subrange(base, base + blocks.len()) == blocks
        }),
{
    let out = f + field + m1 + seq![true] + m2 + blocks + tail + seq![false, false] + crc;
    let n0 = f.len() as int;
    let n1 = n0 + field.len();
    let base = n1 + m1.len() + 1 + m2.len();
    assert(out.take(n0) =~= f);
    assert(out.subrange(n0, n1) =~= field);
    assert forall|i: int| 0 <= i < field.len() implies #[trigger] field[i] == out[n0 + i] by {
        assert(out.subrange(n0, n1)[i] == out[n0 + i]);
    }
    assert(out.subrange(base, base + blocks.len()) =~= blocks);
}

/// Where block `b` with its skip field stands in a frame with EMDF in a skip field.
pub open spec fn skip_start(
    s: Seq<bool>,
    info: FrameInfo,
    points: Seq<int>,
    addbsi: int,
    emdf: int,
    target: int,
    b: int,
) -> int {
    points[0] + (if wants_info(s, info) {
        9int
    } else {
        0
    }) + 6 + addbsi + part_start(points, emdf, target, b)
}

/// Skip field points that increase and stand in front of the frame's tail.
pub open spec fn points_ok(points: Seq<int>, p: int, body: int) -> bool {
    &&& points.len() == 6
    &&& forall|i: int, j: int| 0 <= i < j < 6 ==> #[trigger] points[i] < #[trigger] points[j]
    &&& forall|i: int| 0 <= i < 6 ==> p + 11 < #[trigger] points[i] <= body
}

/// How the parts of a frame with EMDF in a skip field follow each other.
#[verifier::spinoff_prover]
proof fn lemma_skip_layout(
    s: Seq<bool>,
    info: FrameInfo,
    points: Seq<int>,
    a: Seq<bool>,
    e: Seq<bool>,
    target: int,
)
    requires
        points_ok(points, bsi::addbsie_pos(s, info), s.len() - TAIL_BITS),
        0 <= target < 6,
        a.len() % 8 == 0,
    ensures
        ({
            let p = bsi::addbsie_pos(s, info);
            let size = frame_bytes(skip_need(s, info, a.len() as int, e.len() as int));
            let f = front(s, info, size);
            let out = sealed(skip_frame(s, info, points, a, e, target));
            let blocks = blocks_with_skip(s, points, e, target, 6);
            let n0 = f.len() as int;
            let n1 = n0 + 7 + a.len();
            let base = n1 + 11 + (points[0] - (p + 12));
            &&& out.take(n0) == f
            &&& bits::has(out, n0, addbsi_field(a))
            &&& out[n1 + 10]
            &&& out.subrange(base, base + blocks.len()) == blocks
            &&& n0 == p + (if wants_info(s, info) {
                9int
            } else {
                0
            }) ==> out.len() == 8 * size
            &&& out.len() >= base + blocks.len() + 18
        }),
{
    let p = bsi::addbsie_pos(s, info);
    let need = skip_need(s, info, a.len() as int, e.len() as int);
    let size = frame_bytes(need);
    let pre = skip_frame(s, info, points, a, e, target);
    bsi::lemma_bsi_bounds(s, info);
    assert(p + 11 < points[0] <= s.len() - TAIL_BITS);
    bits::lemma_be_len((a.len() / 8 - 1) as nat, 6);
    bits::lemma_be_len(crc::crc16_of(pre.skip(16)) as nat, 16);
    assert forall|i: int| 0 <= i < 6 implies 0 <= #[trigger] points[i] <= s.len() - TAIL_BITS by {}
    lemma_blocks_len(s, points, e, target, 6);
    lemma_parts(
        front(s, info, size),
        addbsi_field(a),
        s.subrange(p + 1, p + 11),
        s.subrange(p + 12, points[0]),
        blocks_with_skip(s, points, e, target, 6),
        bits::zeros((8 * size - need) as nat),
        bits::be(crc::crc16_of(pre.skip(16)) as nat, 16),
    );
}

/// The length of a frame with EMDF in a skip field, and what stands in front of its informational
/// metadata.
#[verifier::spinoff_prover]
proof fn lemma_skip_front(
    s: Seq<bool>,
    info: FrameInfo,
    points: Seq<int>,
    a: Seq<bool>,
    e: Seq<bool>,
    target: int,
)
    requires
        info.blocks == 6,
        points_ok(points, bsi::addbsie_pos(s, info), s.len() - TAIL_BITS),
        a.len() % 8 == 0,
        0 <= target < 6,
        frame_bytes(skip_need(s, info, a.len() as int, e.len() as int)) <= MAX_FRAME_BYTES,
    ensures
        ({
            let out = sealed(skip_frame(s, info, points, a, e, target));
            let size = frame_bytes(skip_need(s, info, a.len() as int, e.len() as int));
            let q = bsi::infomdate_pos(s, info);
            &&& out.len() == 8 * size
            &&& 2 <= size
            &&& 45 <= q <= s.len()
            &&& q <= out.len()
            &&& out.take(q) == resized(s, size).take(q)
        }),
{
    let size = frame_bytes(skip_need(s, info, a.len() as int, e.len() as int));
    let out = sealed(skip_frame(s, info, points, a, e, target));
    bsi::lemma_bsi_bounds(s, info);
    assert(bsi::addbsie_pos(s, info) + 11 < points[0] <= s.len() - TAIL_BITS);
    lemma_skip_layout(s, info, points, a, e, target);
    lemma_front_moves(s, out, info, info, size);
}

/// The header of a frame with EMDF in a skip field.
#[verifier::spinoff_prover]
proof fn lemma_skip_header(
    s: Seq<bool>,
    info: FrameInfo,
    points: Seq<int>,
    a: Seq<bool>,
    e: Seq<bool>,
    target: int,
    off: int,
)
    requires
        info.blocks == 6,
        points_ok(points, bsi::addbsie_pos(s, info), s.len() - TAIL_BITS),
        a.len() % 8 == 0,
        0 <= target < 6,
        frame_bytes(skip_need(s, info, a.len() as int, e.len() as int)) <= MAX_FRAME_BYTES,
    ensures
        ({
            let out = sealed(skip_frame(s, info, points, a, e, target));
            let size = frame_bytes(skip_need(s, info, a.len() as int, e.len() as int));
            &&& out.len() == 8 * size
            &&& eac3::header_bits(out, off) == (FrameInfo { size: size as usize, ..eac3::header_bits(s, off) })
        }),
{
    let size = frame_bytes(skip_need(s, info, a.len() as int, e.len() as int));
    let out = sealed(skip_frame(s, info, points, a, e, target));
    lemma_skip_front(s, info, points, a, e, target);
    lemma_resized_header(s, out, size, bsi::infomdate_pos(s, info), off);
}

/// The additional information and the skip field enable bit of such a frame.
#[verifier::spinoff_prover]
proof fn lemma_skip_reads(
    s: Seq<bool>,
    info: FrameInfo,
    out_info: FrameInfo,
    points: Seq<int>,
    addbsi: Seq<u8>,
    e: Seq<bool>,
    target: int,
)
    requires
        bsi::same_layout(info, out_info),
        info.blocks == 6,
        points_ok(points, bsi::addbsie_pos(s, info), s.len() - TAIL_BITS),
        1 <= addbsi.len() <= 64,
        0 <= target < 6,
        frame_bytes(skip_need(s, info, 8 * addbsi.len() as int, e.len() as int))
            <= MAX_FRAME_BYTES,
    ensures
        ({
            let a = bits::bits_of(addbsi);
            let out = sealed(skip_frame(s, info, points, a, e, target));
            &&& bits::bit(out, bsi::addbsie_pos(out, out_info))
            &&& bsi::addbsi_len(out, out_info) == addbsi.len()
            &&& bsi::bytes_at(out, bsi::addbsie_pos(out, out_info) + 7, addbsi.len()) == addbsi
            &&& bits::bit(out, bsi::audfrm_pos(out, out_info) + 10)
        }),
{
    let a = bits::bits_of(addbsi);
    let size = frame_bytes(skip_need(s, info, a.len() as int, e.len() as int));
    let out = sealed(skip_frame(s, info, points, a, e, target));
    let n0 = front(s, info, size).len() as int;
    bsi::lemma_bsi_bounds(s, info);
    assert(bsi::addbsie_pos(s, info) + 11 < points[0] <= s.len() - TAIL_BITS);
    lemma_skip_layout(s, info, points, a, e, target);
    lemma_front_moves(s, out, info, out_info, size);
    lemma_addbsi_read(out, out_info, n0, addbsi);
}

#[verifier::spinoff_prover]
proof fn lemma_skip_part(
    s: Seq<bool>,
    info: FrameInfo,
    points: Seq<int>,
    a: Seq<bool>,
    e: Seq<bool>,
    target: int,
    b: int,
)
    requires
        points_ok(points, bsi::addbsie_pos(s, info), s.len() - TAIL_BITS),
        a.len() % 8 == 0,
        0 <= target < 6,
        0 <= b < 6,
    ensures
        ({
            let out = sealed(skip_frame(s, info, points, a, e, target));
            let start = skip_start(s, info, points, a.len() as int, e.len() as int, target, b);
            let piece = skip_field(e, b == target) + s.subrange(
                points[b],
                part_end(points, s.len() - TAIL_BITS, b),
            );
            &&& 0 <= start && start + piece.len() <= out.len()
            &&& out.subrange(start, start + piece.len()) == piece
        }),
{
    let p = bsi::addbsie_pos(s, info);
    let size = frame_bytes(skip_need(s, info, a.len() as int, e.len() as int));
    let out = sealed(skip_frame(s, info, points, a, e, target));
    let f = front(s, info, size);
    let blocks = blocks_with_skip(s, points, e, target, 6);
    bsi::lemma_bsi_bounds(s, info);
    assert(p + 11 < points[0] <= s.len() - TAIL_BITS);
    bits::lemma_be_len((size / 2 - 1) as nat, 11);
    assert(f.len() == p + (if wants_info(s, info) {
        9int
    } else {
        0
    }));
    lemma_skip_layout(s, info, points, a, e, target);
    assert forall|i: int| 0 <= i < 6 implies 0 <= #[trigger] points[i] <= s.len() - TAIL_BITS by {}
    lemma_block_part(s, points, e, target, b);
    let base = f.len() + 7 + a.len() + 11 + (points[0] - (p + 12));
    let start = part_start(points, e.len() as int, target, b);
    let piece = skip_field(e, b == target) + s.subrange(
        points[b],
        part_end(points, s.len() - TAIL_BITS, b),
    );
    assert(out.subrange(base + start, base + start + piece.len()) =~= out.subrange(
        base,
        base + blocks.len(),
    ).subrange(start, start + piece.len()));
}

/// What `inject_frame_skipfield` writes reads back: the header with the new size, the additional
/// information, the skip field enable bit; and every block stands behind its skip field as it was,
/// the one of the target block carrying the EMDF.
pub proof fn law_skip_roundtrip(
    s: Seq<bool>,
    info: FrameInfo,
    out_info: FrameInfo,
    addbsi: Seq<u8>,
    emdf: Seq<u8>,
    target: int,
    off: int,
    b: int,
)
    requires
        bsi::same_layout(info, out_info),
        1 <= addbsi.len() <= 64,
        emdf.len() <= 511,
        0 <= target < 6,
        0 <= b < 6,
        can_skip(s, info, addbsi.len() as int, emdf.len() as int, target),
        eac3_audblk::frame_walk(s, info, bsi::addbsie_pos(s, info) + 1)->0.points[5] <= s.len() - TAIL_BITS,
    ensures
        ({
            let p = bsi::addbsie_pos(s, info);
            let points = eac3_audblk::frame_walk(s, info, p + 1)->0.points;
            let a = bits::bits_of(addbsi);
            let e = bits::bits_of(emdf);
            let out = sealed(skip_frame(s, info, points, a, e, target));
            let size = frame_bytes(skip_need(s, info, a.len() as int, e.len() as int));
            let start = skip_start(s, info, points, a.len() as int, e.len() as int, target, b);
            let piece = skip_field(e, b == target) + s.subrange(
                points[b],
                part_end(points, s.len() - TAIL_BITS, b),
            );
            &&& out.len() == 8 * size
            &&& eac3::header_bits(out, off) == (FrameInfo { size: size as usize, ..eac3::header_bits(s, off) })
            &&& bits::bit(out, bsi::addbsie_pos(out, out_info))
            &&& bsi::addbsi_len(out, out_info) == addbsi.len()
            &&& bsi::bytes_at(out, bsi::addbsie_pos(out, out_info) + 7, addbsi.len()) == addbsi
            &&& bits::bit(out, bsi::audfrm_pos(out, out_info) + 10)
            &&& 0 <= start && start + piece.len() <= out.len()
            &&& out.subrange(start, start + piece.len()) == piece
        }),
{
    let p = bsi::addbsie_pos(s, info);
    bsi::lemma_bsi_bounds(s, info);
    eac3_audblk::law_points_increase(s, info, p + 1);
    let points = eac3_audblk::frame_walk(s, info, p + 1)->0.points;
    assert(points_ok(points, p, s.len() - TAIL_BITS)) by {
        assert forall|i: int| 0 <= i < 6 implies p + 11 < #[trigger] points[i] <= s.len()
            - TAIL_BITS by {
            assert(points[i] <= points[5]);
        }
    }
    lemma_skip_header(s, info, points, bits::bits_of(addbsi), bits::bits_of(emdf), target, off);
    lemma_skip_reads(s, info, out_info, points, addbsi, bits::bits_of(emdf), target);
    lemma_skip_part(s, info, points, bits::bits_of(addbsi), bits::bits_of(emdf), target, b);
}

/// A frame with EMDF in a skip field has informational metadata and no auxiliary data, and proves clean.
#[verifier::spinoff_prover]
pub proof fn law_skip_signals(
    s: Seq<bool>,
    info: FrameInfo,
    out_info: FrameInfo,
    addbsi: Seq<u8>,
    emdf: Seq<u8>,
    target: int,
)
    requires
        bsi::same_layout(info, out_info),
        1 <= addbsi.len(),
        emdf.len() <= 511,
        0 <= target < 6,
        can_skip(s, info, addbsi.len() as int, emdf.len() as int, target),
        eac3_audblk::frame_walk(s, info, bsi::addbsie_pos(s, info) + 1)->0.points[5] <= s.len() - TAIL_BITS,
    ensures
        ({
            let p = bsi::addbsie_pos(s, info);
            let points = eac3_audblk::frame_walk(s, info, p + 1)->0.points;
            let out = sealed(
                skip_frame(s, info, points, bits::bits_of(addbsi), bits::bits_of(emdf), target),
            );
            &&& bits::bit(out, bsi::infomdate_pos(out, out_info))
            &&& aux_of(out) is None
            &&& crc::crc16_of(out.skip(16)) == 0
        }),
{
    let p = bsi::addbsie_pos(s, info);
    let q = bsi::infomdate_pos(s, info);
    let a = bits::bits_of(addbsi);
    let e = bits::bits_of(emdf);
    bsi::lemma_bsi_bounds(s, info);
    eac3_audblk::law_points_increase(s, info, p + 1);
    let points = eac3_audblk::frame_walk(s, info, p + 1)->0.points;
    assert(points_ok(points, p, s.len() - TAIL_BITS)) by {
        assert forall|i: int| 0 <= i < 6 implies p + 11 < #[trigger] points[i] <= s.len()
            - TAIL_BITS by {
            assert(points[i] <= points[5]);
        }
    }
    assert(p + 11 < points[0] <= s.len() - TAIL_BITS);
    assert(a.len() == 8 * addbsi.len());
    let size = frame_bytes(skip_need(s, info, a.len() as int, e.len() as int));
    let pre = skip_frame(s, info, points, a, e, target);
    let out = sealed(pre);
    lemma_skip_layout(s, info, points, a, e, target);
    lemma_front_moves(s, out, info, out_info, size);
    bits::lemma_be_len(crc::crc16_of(pre.skip(16)) as nat, 16);
    assert(out[out.len() - 18] == pre[pre.len() - 2]);
    assert(pre.len() >= 16) by {
        assert(out.len() == pre.len() + 16);
    }
    law_sealed_clean(pre);
}

pub proof fn lemma_same_header(s: Seq<bool>, t: Seq<bool>, n: int, off: int)
    requires
        bsi::agree(s, t, 0, n),
        45 <= n,
    ensures
        eac3::header_bits(t, off) == eac3::header_bits(s, off),
{
    bsi::lemma_agree_field(s, t, 0, n, 16, 2);
    bsi::lemma_agree_field(s, t, 0, n, 18, 3);
    bsi::lemma_agree_field(s, t, 0, n, 21, 11);
    bsi::lemma_agree_field(s, t, 0, n, 32, 2);
    bsi::lemma_agree_field(s, t, 0, n, 34, 2);
    bsi::lemma_agree_field(s, t, 0, n, 36, 3);
    bsi::lemma_agree_field(s, t, 0, n, 39, 1);
    bsi::lemma_agree_field(s, t, 0, n, 40, 5);
}

/// Splicing keeps the frame's length, header and layout, and everything but the complexity index and
/// the container; there it puts the new ones.
#[verifier::spinoff_prover]
pub proof fn law_splice_keeps(
    s: Seq<bool>,
    info: FrameInfo,
    emdf_bit: int,
    len: int,
    emdf: Seq<u8>,
    complexity: Option<u8>,
    off: int,
)
    requires
        0 <= len,
        can_splice(s, info, emdf_bit, len, emdf.len() as int),
        emdf_bit + 8 * len <= s.len() - 16,
    ensures
        ({
            let whole = spliced(s, info, emdf_bit, len, bits::bits_of(emdf), complexity);
            let out = sealed(whole.take(s.len() - 16));
            let c = complexity_pos(s, info);
            &&& out.len() == s.len()
            &&& eac3::header_bits(out, off) == eac3::header_bits(s, off)
            &&& bsi::addbsie_pos(out, info) == bsi::addbsie_pos(s, info)
            &&& complexity matches Some(cx) ==> bits::field(out, c, 8) == cx
            &&& complexity is None ==> bits::field(out, c, 8) == bits::field(s, c, 8)
            &&& bsi::agree(s, out, 0, c) && bsi::agree(s, out, c + 8, emdf_bit)
            &&& bsi::agree(s, out, emdf_bit + 8 * len, s.len() - 16)
            &&& out.subrange(emdf_bit, emdf_bit + 8 * len) == bits::bits_of(emdf) + bits::zeros(
                (8 * len - 8 * emdf.len()) as nat,
            )
        }),
{
    let e = bits::bits_of(emdf);
    let whole = spliced(s, info, emdf_bit, len, e, complexity);
    let pre = whole.take(s.len() - 16);
    let out = sealed(pre);
    let c = complexity_pos(s, info);
    let fr = spliced_front(s, info, emdf_bit, complexity);
    bsi::lemma_bsi_bounds(s, info);
    if let Some(cx) = complexity {
        bits::lemma_be_len(cx as nat, 8);
    }
    assert(fr.len() == emdf_bit);
    assert(whole.len() == s.len());
    bits::lemma_be_len(crc::crc16_of(pre.skip(16)) as nat, 16);
    assert forall|i: int| 0 <= i < s.len() - 16 implies out[i] == #[trigger] whole[i] by {}
    assert forall|i: int| 0 <= i < c implies #[trigger] bits::bit(s, i) == bits::bit(out, i) by {
        assert(whole[i] == fr[i]);
    }
    assert forall|i: int| c + 8 <= i < emdf_bit implies #[trigger] bits::bit(s, i) == bits::bit(out, i) by {
        assert(whole[i] == fr[i]);
    }
    assert forall|i: int| emdf_bit + 8 * len <= i < s.len() - 16 implies #[trigger] bits::bit(s, i) == bits::bit(
        out,
        i,
    ) by {
        assert(whole[i] == s[i]);
    }
    assert(out.subrange(emdf_bit, emdf_bit + 8 * len) =~= e + bits::zeros(
        (8 * len - 8 * emdf.len()) as nat,
    ));
    lemma_same_header(s, out, c, off);
    bsi::lemma_addbsie_ext(s, out, info, info);
    match complexity {
        Some(cx) => {
            assert forall|i: int| 0 <= i < 8 implies #[trigger] bits::be(cx as nat, 8)[i] == out[c + i] by {
                assert(whole[c + i] == fr[c + i]);
            }
            bits::lemma_two_values();
            bits::lemma_field_small(out, c, cx as nat, 8);
        },
        None => {
            assert forall|i: int| c <= i < c + 8 implies #[trigger] bits::bit(s, i) == bits::bit(out, i) by {
                assert(whole[i] == fr[i]);
            }
            bsi::lemma_agree_field(s, out, c, c + 8, c, 8);
        },
    }
}

/// Splicing keeps the frame's length and header, wherever the container stands, and the new frame
/// proves clean.
#[verifier::spinoff_prover]
pub proof fn law_splice_header(
    s: Seq<bool>,
    info: FrameInfo,
    emdf_bit: int,
    len: int,
    emdf: Seq<u8>,
    complexity: Option<u8>,
    off: int,
)
    requires
        0 <= len,
        can_splice(s, info, emdf_bit, len, emdf.len() as int),
    ensures
        ({
            let whole = spliced(s, info, emdf_bit, len, bits::bits_of(emdf), complexity);
            let out = sealed(whole.take(s.len() - 16));
            &&& out.len() == s.len()
            &&& out.take(16) == s.take(16)
            &&& eac3::header_bits(out, off) == eac3::header_bits(s, off)
            &&& crc::crc16_of(out.skip(16)) == 0
        }),
{
    let e = bits::bits_of(emdf);
    let whole = spliced(s, info, emdf_bit, len, e, complexity);
    let pre = whole.take(s.len() - 16);
    let out = sealed(pre);
    let c = complexity_pos(s, info);
    let fr = spliced_front(s, info, emdf_bit, complexity);
    bsi::lemma_bsi_bounds(s, info);
    if let Some(cx) = complexity {
        bits::lemma_be_len(cx as nat, 8);
    }
    assert(fr.len() == emdf_bit);
    assert(whole.len() == s.len());
    bits::lemma_be_len(crc::crc16_of(pre.skip(16)) as nat, 16);
    assert forall|i: int| 0 <= i < 50 implies #[trigger] bits::bit(s, i) == bits::bit(out, i) by {
        assert(out[i] == whole[i]);
        assert(whole[i] == fr[i]);
    }
    assert(out.take(16) =~= s.take(16)) by {
        assert forall|i: int| 0 <= i < 16 implies out[i] == s[i] by {
            assert(bits::bit(s, i) == bits::bit(out, i));
        }
    }
    lemma_same_header(s, out, 50, off);
    law_sealed_clean(pre);
}

} // verus!
