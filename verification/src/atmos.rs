//! Atmos streams, frame by frame: building the metadata of a frame, carrying it in the frame, reading
//! it back, and moving it from one stream to another.

use crate::bits;
use crate::bsi;
use crate::bsi::{audfrm_start_bit, bsi_addbsie_pos, read_addbsi, read_addbsi_raw};
use crate::eac3::{FrameInfo, MAX_FRAME_BYTES};
use crate::eac3_audblk;
use crate::eac3_audblk::skip_points;
use crate::emdf;
use crate::emdf::{
    decode_emdf_oamd, extract_emdf_payloads, list_emdf_payloads, wrap_emdf, PAYLOADS_BIT, PAYLOAD_JOC,
    PAYLOAD_OAMD,
};
use crate::inject;
use crate::inject::{
    inject_frame_full, inject_frame_skipfield, read_aux, splice_emdf_into_core, TAIL_BITS,
};
use crate::joc;
use crate::joc::{
    decode_joc, encode_joc, find_emdf_anywhere, HuffEnc, JocError, JocFrame, JocTables,
};
use crate::oamd;
use crate::oamd::{encode_oamd, ObjectCode};
use crate::protect::EmdfProtector;
use crate::tally;
use crate::tally::tally;
use vstd::prelude::*;
use vstd::slice::slice_to_vec;

verus! {

// ------------------------------------------------------------------ building a frame's metadata

/// The block whose skip field carries the EMDF.
pub const SKIP_BLOCK: usize = 2;

/// Most bytes that a skip field holds.
pub const MAX_SKIP_BYTES: usize = 511;

/// The complexity index for `objects` objects: at most 16.
pub open spec fn announced(objects: int) -> int {
    if objects <= 16 {
        objects
    } else {
        16
    }
}

/// The additional information that announces `objects` objects: seven reserved bits, the extension
/// flag, and the complexity index.
pub open spec fn addbsi_for(objects: int) -> Seq<u8> {
    seq![1u8, announced(objects) as u8]
}

/// The raw addbsi field for a number of objects, the LFE bed among them.
pub fn atmos_addbsi(object_count: usize) -> (r: Vec<u8>)
    ensures
        r@ == addbsi_for(object_count as int),
{
    let complexity: u8 = if object_count <= 16 {
        object_count as u8
    } else {
        16
    };
    let mut r: Vec<u8> = Vec::new();
    r.push(1);
    r.push(complexity);
    assert(r@ =~= addbsi_for(object_count as int));
    r
}

/// The payloads of a frame: OAMD, JOC, and two constant companions.
pub open spec fn atmos_payloads(oamd: Seq<u8>, joc: Seq<u8>) -> Seq<(u8, Seq<u8>)> {
    seq![
        (PAYLOAD_OAMD, oamd),
        (PAYLOAD_JOC, joc),
        (2u8, seq![0x04u8, 0x94, 0x80]),
        (1u8, seq![0x02u8, 0x00]),
    ]
}

proof fn lemma_symbols_len(t: joc::Tree, symbols: Seq<i32>)
    requires
        joc::tree_ok(t, 0, joc::MAX_CODE_BITS as nat),
        forall|i: int|
            0 <= i < symbols.len() ==> joc::tree_code(t, #[trigger] symbols[i] as int) is Some,
    ensures
        joc::symbols_bits(t, symbols).len() <= 32 * symbols.len(),
    decreases symbols.len(),
{
    if symbols.len() > 0 {
        let more = symbols.skip(1);
        joc::lemma_code_len(t, 0, joc::MAX_CODE_BITS as nat, symbols[0] as int);
        assert forall|i: int| 0 <= i < more.len() implies joc::tree_code(t, #[trigger] more[i] as int) is Some by {
            assert(more[i] == symbols[i + 1]);
        }
        lemma_symbols_len(t, more);
    }
}

proof fn lemma_rows_len(t: joc::Tree, rows: Seq<Seq<i32>>)
    requires
        joc::tree_ok(t, 0, joc::MAX_CODE_BITS as nat),
        forall|i: int, k: int|
            0 <= i < rows.len() && 0 <= k < rows[i].len() ==> joc::tree_code(
                t,
                #[trigger] rows[i][k] as int,
            ) is Some,
        forall|i: int| 0 <= i < rows.len() ==> (#[trigger] rows[i]).len() == joc::ENC_BANDS,
    ensures
        joc::rows_bits(t, rows).len() <= 384 * rows.len(),
    decreases rows.len(),
{
    if rows.len() > 0 {
        let more = rows.skip(1);
        let first = rows[0];
        assert forall|i: int| 0 <= i < first.len() implies joc::tree_code(t, #[trigger] first[i] as int) is Some by {
            assert(joc::tree_code(t, rows[0][i] as int) is Some);
        }
        lemma_symbols_len(t, first);
        assert forall|i: int, k: int| 0 <= i < more.len() && 0 <= k < more[i].len() implies joc::tree_code(
            t,
            #[trigger] more[i][k] as int,
        ) is Some by {
            assert(more[i] == rows[i + 1]);
            assert(joc::tree_code(t, rows[i + 1][k] as int) is Some);
        }
        assert forall|i: int| 0 <= i < more.len() implies (#[trigger] more[i]).len() == joc::ENC_BANDS by {
            assert(more[i] == rows[i + 1]);
        }
        lemma_rows_len(t, more);
    }
}

proof fn lemma_data_len(t: joc::Tree, codes: Seq<[i32; 5]>)
    requires
        joc::tree_ok(t, 0, joc::MAX_CODE_BITS as nat),
        joc::covers_fine(t),
        joc::codes_ok(codes),
    ensures
        joc::data_bits(t, codes).len() <= 1920 * codes.len(),
    decreases codes.len(),
{
    if codes.len() > 0 {
        let more = codes.skip(1);
        let rows = joc::object_rows(codes[0]);
        assert forall|i: int, k: int| 0 <= i < rows.len() && 0 <= k < rows[i].len() implies joc::tree_code(
            t,
            #[trigger] rows[i][k] as int,
        ) is Some by {
            assert(0 <= codes[0][i] < joc::FINE_RANGE);
            assert(0 <= rows[i][k] < joc::FINE_RANGE);
        }
        lemma_rows_len(t, rows);
        assert forall|i: int, ch: int| 0 <= i < more.len() && 0 <= ch < 5 implies 0
            <= #[trigger] more[i][ch] < joc::FINE_RANGE by {
            assert(0 <= codes[i + 1][ch] < joc::FINE_RANGE);
        }
        lemma_data_len(t, more);
    }
}

proof fn lemma_infos_len(n: nat)
    ensures
        joc::infos_bits(n).len() == 8 * n,
    decreases n,
{
    if n > 0 {
        lemma_infos_len((n - 1) as nat);
        bits::lemma_be_len(joc::ENC_BANDS_IDX as nat, 3);
        bits::lemma_be_len(1, 1);
        bits::lemma_be_len(0, 1);
    }
}

pub proof fn lemma_joc_size(t: joc::Tree, codes: Seq<[i32; 5]>, seq: u16)
    requires
        joc::tree_ok(t, 0, joc::MAX_CODE_BITS as nat),
        joc::covers_fine(t),
        joc::codes_ok(codes),
        1 <= codes.len() <= 64,
    ensures
        bits::pack(joc::joc_bits(t, codes, seq)).len() <= 20000,
{
    lemma_data_len(t, codes);
    lemma_infos_len(codes.len());
    bits::lemma_be_len(0, 3);
    bits::lemma_be_len((codes.len() - 1) as nat, 6);
    bits::lemma_be_len(4, 3);
    bits::lemma_be_len(0, 5);
    bits::lemma_be_len((seq % 1024) as nat, 10);
    bits::lemma_pack_bits(joc::joc_bits(t, codes, seq));
}

/// Four payloads take little more than their bytes.
proof fn lemma_payloads_len(payloads: Seq<(u8, Seq<u8>)>)
    ensures
        emdf::payloads_bits(payloads).len() <= 60 * payloads.len() + 8 * total_len(payloads),
    decreases payloads.len(),
{
    if payloads.len() > 0 {
        lemma_payloads_len(payloads.drop_last());
        emdf::lemma_payload_header_len(payloads.last().0, payloads.last().1.len());
    }
}

spec fn total_len(payloads: Seq<(u8, Seq<u8>)>) -> nat
    decreases payloads.len(),
{
    if payloads.len() == 0 {
        0
    } else {
        total_len(payloads.drop_last()) + payloads.last().1.len()
    }
}

/// The EMDF of a frame: the positions of the objects (with an LFE bed) and the gain codes that
/// reconstruct them, in a container protected by `prot`.
pub fn frame_emdf<P: EmdfProtector>(
    objects: &[ObjectCode],
    codes: &[[i32; 5]],
    seq: u16,
    enc: &HuffEnc,
    prot: &P,
) -> (out: Vec<u8>)
    requires
        oamd::element_len(objects@.len() as int, true) <= 4368,
        1 <= codes@.len() <= 64,
        joc::codes_ok(codes@),
        enc.wf(),
        joc::covers_fine(enc.tree()),
    ensures
        bits::bits_of(out@) == emdf::container_bits(
            atmos_payloads(
                bits::pack(oamd::oamd_bits(objects@, true)),
                bits::pack(joc::joc_bits(enc.tree(), codes@, seq)),
            ),
            *prot,
        ),
{
    let oamd = encode_oamd(objects, true);
    let joc = encode_joc(codes, seq, enc);
    let mut two: Vec<u8> = Vec::new();
    two.push(0x04);
    two.push(0x94);
    two.push(0x80);
    let mut one: Vec<u8> = Vec::new();
    one.push(0x02);
    one.push(0x00);
    let ghost c = atmos_payloads(oamd@, joc@);
    let mut payloads: Vec<(u8, Vec<u8>)> = Vec::new();
    proof {
        assert(two@ =~= seq![0x04u8, 0x94, 0x80]);
        assert(one@ =~= seq![0x02u8, 0x00]);
    }
    payloads.push((PAYLOAD_OAMD, oamd));
    payloads.push((PAYLOAD_JOC, joc));
    payloads.push((2, two));
    payloads.push((1, one));
    proof {
        assert(emdf::contents(payloads@) =~= c);
        emdf::lemma_oamd_size(objects@, true);
        enc.lemma_tree();
        lemma_joc_size(enc.tree(), codes@, seq);
        bits::lemma_two_values();
        bits::lemma_two_add(8, 8);
        lemma_payloads_len(c);
        reveal_with_fuel(total_len, 5);
        assert(c.drop_last() =~= c.take(3));
        assert(c.take(3).drop_last() =~= c.take(2));
        assert(c.take(2).drop_last() =~= c.take(1));
        assert(c.take(1).drop_last() =~= Seq::empty());
        assert(total_len(c) <= 21000);
    }
    wrap_emdf(&payloads, prot)
}

// ------------------------------------------------------------------ carriage

/// How a frame can carry additional information and EMDF.
#[derive(Clone, Copy, PartialEq, Eq, Structural, Debug)]
pub enum Carriage {
    /// In an audio-block skip field.
    SkipField,
    /// In the auxiliary data at the tail.
    Aux,
    /// Not at all.
    Impossible,
}

/// The audio blocks of the frame lie within it.
pub open spec fn walk_inside(s: Seq<bool>, info: FrameInfo) -> bool {
    eac3_audblk::frame_walk(s, info, bsi::addbsie_pos(s, info) + 1) matches Some(w) ==> w.points[5] <= s.len()
        - TAIL_BITS
}

/// The frame can carry `addbsi` and `emdf` bytes in the additional information and the auxiliary data.
pub open spec fn can_aux(s: Seq<bool>, info: FrameInfo, addbsi: int, emdf: int) -> bool {
    &&& info.bsid == 16
    &&& !bits::bit(s, bsi::addbsie_pos(s, info))
    &&& bsi::addbsie_pos(s, info) + 1 <= s.len() - TAIL_BITS
    &&& inject::frame_bytes(inject::full_need(s.len() as int, 8 * addbsi, 8 * emdf)) <= MAX_FRAME_BYTES
}

/// How a frame carries `addbsi` bytes of additional information and `emdf` bytes of EMDF: in a skip
/// field where its audio blocks are in the supported subset, at the tail otherwise.
pub open spec fn carriage_of(s: Seq<bool>, info: FrameInfo, addbsi: int, emdf: int) -> Carriage {
    if addbsi < 1 || emdf > MAX_SKIP_BYTES {
        Carriage::Impossible
    } else if inject::can_skip(s, info, addbsi, emdf, SKIP_BLOCK as int) {
        if walk_inside(s, info) {
            Carriage::SkipField
        } else {
            Carriage::Impossible
        }
    } else if can_aux(s, info, addbsi, emdf) {
        Carriage::Aux
    } else {
        Carriage::Impossible
    }
}

/// How a frame can carry additional information and EMDF of these sizes, in bytes.
pub fn carriage(frame: &[u8], info: &FrameInfo, addbsi_len: usize, emdf_len: usize) -> (c: Carriage)
    requires
        frame@.len() + addbsi_len <= usize::MAX / 8 - 10000,
    ensures
        c == carriage_of(bits::bits_of(frame@), *info, addbsi_len as int, emdf_len as int),
{
    let ghost s = bits::bits_of(frame@);
    if addbsi_len < 1 || emdf_len > MAX_SKIP_BYTES {
        return Carriage::Impossible;
    }
    let l = frame.len() * 8;
    let (p, addbsie) = match bsi_addbsie_pos(frame, info) {
        Some(r) => r,
        None => {
            return Carriage::Impossible;
        },
    };
    if addbsie {
        return Carriage::Impossible;
    }
    proof {
        bsi::lemma_bsi_bounds(s, *info);
        eac3_audblk::law_points_increase(s, *info, p + 1);
    }
    let (q, infomdate) = match crate::bsi::bsi_infomdate_pos(frame, info) {
        Some(r) => r,
        None => {
            return Carriage::Impossible;
        },
    };
    if let Some((points, _)) = skip_points(frame, info, p + 1) {
        let ghost w = eac3_audblk::frame_walk(s, *info, p + 1)->0;
        assert(points@.map_values(|x: usize| x as int)[5] == points@[5]);
        let inside = l >= TAIL_BITS && points[5] <= l - TAIL_BITS;
        let extra: usize = if !infomdate && info.acmod == 7 && info.fscod < 3 && q < p {
            9
        } else {
            0
        };
        let need = l + extra + (6 + addbsi_len * 8) + (5 + 1 + 9 + emdf_len * 8);
        assert(need == inject::skip_need(s, *info, 8 * addbsi_len as int, 8 * emdf_len as int));
        let fits = 2 * ((need + 15) / 16) <= MAX_FRAME_BYTES;
        if fits {
            return if inside {
                Carriage::SkipField
            } else {
                Carriage::Impossible
            };
        }
    }
    if l < TAIL_BITS || p + 1 > l - TAIL_BITS {
        return Carriage::Impossible;
    }
    let need = l + addbsi_len * 8 + emdf_len * 8 + 20;
    if 2 * ((need + 15) / 16) <= MAX_FRAME_BYTES {
        Carriage::Aux
    } else {
        Carriage::Impossible
    }
}

/// A frame with additional information and EMDF in it: in a skip field, or at the tail.
pub open spec fn carried(s: Seq<bool>, info: FrameInfo, addbsi: Seq<u8>, emdf: Seq<u8>) -> Seq<bool> {
    let p = bsi::addbsie_pos(s, info);
    if inject::can_skip(s, info, addbsi.len() as int, emdf.len() as int, SKIP_BLOCK as int) {
        inject::sealed(
            inject::skip_frame(
                s,
                info,
                eac3_audblk::frame_walk(s, info, p + 1)->0.points,
                bits::bits_of(addbsi),
                bits::bits_of(emdf),
                SKIP_BLOCK as int,
            ),
        )
    } else {
        inject::sealed(inject::full_frame(s, p, bits::bits_of(addbsi), bits::bits_of(emdf)))
    }
}

/// Puts additional information and EMDF into a frame: in an audio-block skip field (mid-frame), or, if
/// the frame's audio blocks are outside the walker's supported subset, in the tail auxdata. Says
/// whether the skip field carries it.
pub fn carry(frame: &[u8], info: &FrameInfo, addbsi: &[u8], emdf: &[u8]) -> (r: (Vec<u8>, bool))
    requires
        carriage_of(
            bits::bits_of(frame@),
            *info,
            addbsi@.len() as int,
            emdf@.len() as int,
        ) != Carriage::Impossible,
        frame@.len() + addbsi@.len() <= usize::MAX / 8 - 10000,
    ensures
        bits::bits_of(r.0@) == carried(bits::bits_of(frame@), *info, addbsi@, emdf@),
        r.1 == (carriage_of(
            bits::bits_of(frame@),
            *info,
            addbsi@.len() as int,
            emdf@.len() as int,
        ) == Carriage::SkipField),
{
    match inject_frame_skipfield(frame, info, addbsi, emdf, SKIP_BLOCK) {
        Some(out) => (out, true),
        None => {
            let n = emdf.len() * 8;
            assert(bits::bits_of(emdf@).take(8 * emdf@.len() as int) =~= bits::bits_of(emdf@));
            (inject_frame_full(frame, info, addbsi, emdf, n), false)
        },
    }
}

// ------------------------------------------------------------------ reading a frame's metadata

/// The EMDF container that seems to start in the frame `s`: where, and the bytes from there on.
pub open spec fn emdf_in(s: Seq<bool>) -> Option<(int, Seq<u8>)> {
    match joc::first_emdf(s, 0) {
        Some(i) => Some((i, bits::pack(s.skip(i)))),
        None => None,
    }
}

/// The first payload with this id.
pub open spec fn first_payload(payloads: Seq<(u8, Seq<u8>)>, id: u8) -> Option<Seq<u8>>
    decreases payloads.len(),
{
    if payloads.len() == 0 {
        None
    } else if payloads[0].0 == id {
        Some(payloads[0].1)
    } else {
        first_payload(payloads.skip(1), id)
    }
}

/// The payloads of the container in `data`.
pub open spec fn payloads_in(data: Seq<u8>) -> Option<Seq<(u8, Seq<u8>)>> {
    match emdf::container_in(data) {
        Some(c) => Some(emdf::extracted(c, PAYLOADS_BIT as int)),
        None => None,
    }
}

/// The first JOC payload of the container in `data`.
pub open spec fn joc_payload_in(data: Seq<u8>) -> Option<Seq<u8>> {
    match payloads_in(data) {
        Some(p) => first_payload(p, PAYLOAD_JOC),
        None => None,
    }
}

/// The object count of the OAMD of the container in `data`.
pub open spec fn oamd_objects_in(data: Seq<u8>) -> Option<int> {
    match emdf::container_in(data) {
        Some(c) => match emdf::oamd_start(c, PAYLOADS_BIT as int) {
            Some(p) => Some(oamd::head_at(c, p).0.object_count as int),
            None => None,
        },
        None => None,
    }
}

/// The index of the first payload with this id.
fn find_payload(payloads: &Vec<(u8, Vec<u8>)>, id: u8) -> (r: Option<usize>)
    ensures
        match r {
            Some(i) => i < payloads@.len() && first_payload(emdf::contents(payloads@), id) == Some(
                payloads@[i as int].1@,
            ),
            None => first_payload(emdf::contents(payloads@), id) is None,
        },
{
    let ghost c = emdf::contents(payloads@);
    let mut i: usize = 0;
    assert(c.skip(0) =~= c);
    while i < payloads.len()
        invariant
            i <= payloads@.len(),
            c == emdf::contents(payloads@),
            first_payload(c, id) == first_payload(c.skip(i as int), id),
        decreases payloads@.len() - i,
    {
        assert(c.skip(i as int)[0] == c[i as int]);
        if payloads[i].0 == id {
            return Some(i);
        }
        assert(c.skip(i as int).skip(1) =~= c.skip(i + 1));
        i = i + 1;
    }
    None
}

/// What a frame's metadata was found to be.
#[derive(Clone, Copy, PartialEq, Eq, Structural, Debug)]
pub struct FrameCheck {
    /// The additional information announces the objects.
    pub flag: bool,
    /// The OAMD has the objects.
    pub oamd: bool,
    /// The JOC has the dynamic objects.
    pub joc: bool,
}

/// The additional information announces `objects` objects.
pub open spec fn flag_ok(s: Seq<bool>, info: FrameInfo, objects: int) -> bool {
    let p = bsi::addbsie_pos(s, info);
    &&& info.bsid == 16 && bits::bit(s, p) && bsi::addbsi_len(s, info) >= 2
    &&& bits::bit(s, p + 14)
    &&& bits::field(s, p + 15, 8) == objects
}

/// The OAMD in the frame has `objects` objects.
pub open spec fn oamd_ok(s: Seq<bool>, objects: int) -> bool {
    emdf_in(s) matches Some((_, rest)) && oamd_objects_in(rest) == Some(objects)
}

/// The JOC in the frame has `objects` objects.
pub open spec fn joc_ok(t: JocTables, s: Seq<bool>, objects: int) -> bool {
    &&& emdf_in(s) matches Some((_, rest))
    &&& joc_payload_in(rest) matches Some(j)
    &&& joc::frame_at(t, bits::bits_of(j)) matches Ok(f)
    &&& f.object_count == objects
}

/// Bytes that hold at most the bits of a frame.
proof fn lemma_rest_len(s: Seq<bool>, i: int)
    requires
        0 <= i <= s.len(),
    ensures
        8 * bits::pack(s.skip(i)).len() <= s.len() + 7,
{
    bits::lemma_pack_bits(s.skip(i));
}

proof fn lemma_first_emdf(s: Seq<bool>, i: int)
    requires
        0 <= i,
    ensures
        joc::first_emdf(s, i) matches Some(k) ==> i <= k && joc::emdf_at(s, k),
    decreases s.len() - i,
{
    if i + 16 < s.len() && !joc::emdf_at(s, i) {
        lemma_first_emdf(s, i + 1);
    }
}

/// Payload bytes come from the container.
proof fn lemma_extracted_len(s: Seq<bool>, p: int, i: int)
    requires
        0 <= p,
        0 <= i < emdf::extracted(s, p).len(),
    ensures
        8 * emdf::extracted(s, p)[i].1.len() <= s.len() + 7,
    decreases
        (if p < s.len() {
            s.len() - p
        } else {
            0
        }),
{
    emdf::lemma_payload_at(s, p);
    let e = emdf::payload_at(s, p);
    bits::lemma_pack_bits(s.subrange(e.at, e.end()));
    if i > 0 {
        assert(emdf::extracted(s, p)[i] == emdf::extracted(s, e.end())[i - 1]);
        lemma_extracted_len(s, e.end(), i - 1);
    }
}

/// Reads the JOC payload of the container at the start of `rest`.
fn read_joc_payload(rest: &[u8]) -> (r: Option<Vec<u8>>)
    requires
        oamd::addressable(rest@.len()),
    ensures
        match r {
            Some(j) => joc_payload_in(rest@) == Some(j@) && j@.len() <= rest@.len() + 1,
            None => joc_payload_in(rest@) is None,
        },
{
    match extract_emdf_payloads(rest) {
        None => None,
        Some(payloads) => {
            match find_payload(&payloads, PAYLOAD_JOC) {
                None => None,
                Some(i) => {
                    let bytes = &payloads[i].1;
                    let j = slice_to_vec(bytes.as_slice());
                    proof {
                        let c = emdf::container_in(rest@)->0;
                        assert(emdf::contents(payloads@)[i as int] == (
                            payloads@[i as int].0,
                            payloads@[i as int].1@,
                        ));
                        lemma_container_len(rest@);
                        lemma_extracted_len(c, PAYLOADS_BIT as int, i as int);
                    }
                    Some(j)
                },
            }
        },
    }
}

proof fn lemma_container_len(data: Seq<u8>)
    ensures
        emdf::container_in(data) matches Some(c) ==> c.len() <= 8 * data.len(),
{
    emdf::lemma_emdf_sync(data, 0);
}

/// Reads the addbsi flag, OAMD and JOC back from a frame. The EMDF is bit-scanned anywhere in the frame
/// (skip-field carriage is not byte-aligned).
pub fn check_frame(
    frame: &[u8],
    info: &FrameInfo,
    object_count: usize,
    nobj: usize,
    tables: &JocTables,
) -> (c: FrameCheck)
    requires
        tables.ok(),
        oamd::addressable(frame@.len() + 2),
    ensures
        c.flag == flag_ok(bits::bits_of(frame@), *info, object_count as int),
        c.oamd == oamd_ok(bits::bits_of(frame@), object_count as int),
        c.joc == joc_ok(*tables, bits::bits_of(frame@), nobj as int),
{
    let ghost s = bits::bits_of(frame@);
    let flag = match read_addbsi(frame, info) {
        Some((flag, cx)) => flag && cx as usize == object_count,
        None => false,
    };
    let mut oamd = false;
    let mut joc = false;
    if let Some((i, rest)) = find_emdf_anywhere(frame) {
        proof {
            lemma_first_emdf(s, 0);
            lemma_rest_len(s, i as int);
        }
        if let Some(d) = decode_emdf_oamd(&rest) {
            oamd = d.object_count == object_count;
        }
        if let Some(j) = read_joc_payload(&rest) {
            if let Ok(f) = decode_joc(&j, tables) {
                joc = f.object_count == nobj;
            }
        }
    }
    FrameCheck { flag, oamd, joc }
}

/// What the auxiliary data of a frame says: None without OAMD, else whether it has `objects` objects
/// and one bed.
pub open spec fn aux_oamd_ok(s: Seq<bool>, objects: int) -> Option<bool> {
    match inject::aux_of(s) {
        Some(aux) => match emdf::container_in(bits::pack(aux)) {
            Some(c) => match emdf::oamd_start(c, PAYLOADS_BIT as int) {
                Some(p) => {
                    let h = oamd::head_at(c, p).0;
                    Some(h.object_count == objects && h.beds() == 1)
                },
                None => None,
            },
            None => None,
        },
        None => None,
    }
}

/// Reads the OAMD back from a frame's auxiliary data.
pub fn check_aux_oamd(frame: &[u8], object_count: usize) -> (r: Option<bool>)
    requires
        oamd::addressable(frame@.len() + 2),
    ensures
        r == aux_oamd_ok(bits::bits_of(frame@), object_count as int),
{
    match read_aux(frame) {
        Some((aux, _)) => {
            proof {
                lemma_aux_len(bits::bits_of(frame@));
            }
            match decode_emdf_oamd(&aux) {
                Some(d) => Some(d.object_count == object_count && d.bed_count == 1),
                None => None,
            }
        },
        None => None,
    }
}

proof fn lemma_aux_len(s: Seq<bool>)
    ensures
        inject::aux_of(s) matches Some(aux) ==> 8 * bits::pack(aux).len() <= s.len() + 7,
{
    if let Some(aux) = inject::aux_of(s) {
        bits::lemma_pack_bits(aux);
    }
}

/// The auxiliary data of the frame is this payload.
pub open spec fn aux_is(s: Seq<bool>, payload: Seq<u8>) -> bool {
    inject::aux_of(s) matches Some(aux) && aux.len() == 8 * payload.len() && bits::pack(aux) == payload
}

/// Whether the auxiliary data of a frame is this payload.
pub fn aux_matches(frame: &[u8], payload: &[u8]) -> (b: bool)
    requires
        8 * frame@.len() <= usize::MAX,
        8 * payload@.len() <= usize::MAX,
    ensures
        b == aux_is(bits::bits_of(frame@), payload@),
{
    match read_aux(frame) {
        None => false,
        Some((got, n)) => {
            if n != payload.len() * 8 {
                return false;
            }
            proof {
                let aux = inject::aux_of(bits::bits_of(frame@))->0;
                assert(bits::pack(aux).len() == payload@.len());
            }
            let mut i: usize = 0;
            while i < payload.len()
                invariant
                    i <= payload@.len(),
                    got@.len() == payload@.len(),
                    forall|k: int| 0 <= k < i ==> #[trigger] got@[k] == payload@[k],
                    inject::aux_of(bits::bits_of(frame@)) matches Some(aux) && aux.len() == 8 * payload@.len()
                        && bits::pack(aux) == got@,
                decreases payload@.len() - i,
            {
                if got[i] != payload[i] {
                    return false;
                }
                i = i + 1;
            }
            assert(got@ =~= payload@);
            true
        },
    }
}

/// What the marker test of `inject_aux` relies on: a payload of whole bytes that was injected is the
/// auxiliary data of the frame.
pub proof fn law_marker_roundtrip(s: Seq<bool>, payload: Seq<u8>)
    requires
        s.len() >= 48,
        1 <= 8 * payload.len() < 16384,
    ensures
        aux_is(inject::sealed(inject::aux_frame(s, bits::bits_of(payload))), payload),
{
    inject::law_aux_roundtrip(s, bits::bits_of(payload));
    bits::lemma_pack_of_bits(payload);
}

/// Signalling of a frame: extension flag, auxiliary data, OAMD and JOC in the auxiliary data.
#[derive(Clone, Copy, PartialEq, Eq, Structural, Debug)]
pub struct Signals {
    pub flag: bool,
    pub aux: bool,
    pub oamd: bool,
    pub joc: bool,
}

/// A listed payload has this id.
pub open spec fn lists(l: Seq<(u8, nat)>, id: u8) -> bool {
    exists|i: int| 0 <= i < l.len() && (#[trigger] l[i]).0 == id
}

/// The auxiliary data holds a container that lists a payload with this id.
pub open spec fn aux_lists(s: Seq<bool>, id: u8) -> bool {
    &&& inject::aux_of(s) matches Some(aux)
    &&& emdf::container_in(bits::pack(aux)) matches Some(c)
    &&& lists(emdf::listed(c, PAYLOADS_BIT as int), id)
}

fn has_id(l: &Vec<(u8, usize)>, id: u8) -> (b: bool)
    ensures
        b == lists(l@.map_values(|e: (u8, usize)| (e.0, e.1 as nat)), id),
{
    let ghost v = l@.map_values(|e: (u8, usize)| (e.0, e.1 as nat));
    let mut i: usize = 0;
    while i < l.len()
        invariant
            i <= l@.len(),
            v == l@.map_values(|e: (u8, usize)| (e.0, e.1 as nat)),
            forall|k: int| 0 <= k < i ==> (#[trigger] v[k]).0 != id,
        decreases l@.len() - i,
    {
        assert(v[i as int].0 == l@[i as int].0);
        if l[i].0 == id {
            return true;
        }
        i = i + 1;
    }
    false
}

/// The signalling of the frame `s`.
pub open spec fn signals_of(s: Seq<bool>, info: FrameInfo) -> Signals {
    let p = bsi::addbsie_pos(s, info);
    Signals {
        flag: info.bsid == 16 && bits::bit(s, p) && bsi::addbsi_len(s, info) >= 2 && bits::bit(s, p + 14),
        aux: inject::aux_of(s) is Some,
        oamd: aux_lists(s, PAYLOAD_OAMD),
        joc: aux_lists(s, PAYLOAD_JOC),
    }
}

/// The signalling of a frame.
pub fn signals(frame: &[u8], info: &FrameInfo) -> (g: Signals)
    requires
        oamd::addressable(frame@.len() + 2),
    ensures
        g == signals_of(bits::bits_of(frame@), *info),
{
    let flag = match read_addbsi(frame, info) {
        Some((flag, _)) => flag,
        None => false,
    };
    let mut g = Signals { flag, aux: false, oamd: false, joc: false };
    if let Some((aux, _)) = read_aux(frame) {
        proof {
            lemma_aux_len(bits::bits_of(frame@));
        }
        g.aux = true;
        if let Some((_, l)) = list_emdf_payloads(&aux) {
            g.oamd = has_id(&l, PAYLOAD_OAMD);
            g.joc = has_id(&l, PAYLOAD_JOC);
        }
    }
    g
}

/// What a frame's EMDF holds, wherever it stands.
pub struct EmdfProbe {
    /// The bit at which the container starts.
    pub bit: usize,
    pub payloads: Vec<(u8, Vec<u8>)>,
    /// The first JOC payload, decoded, and its bytes.
    pub joc: Option<(Result<JocFrame, JocError>, usize)>,
}

/// Finds and decodes the JOC payload of a frame (EMDF at any bit offset). None without EMDF.
pub fn probe_joc(frame: &[u8], tables: &JocTables) -> (r: Option<EmdfProbe>)
    requires
        tables.ok(),
        oamd::addressable(frame@.len() + 2),
    ensures
        match emdf_in(bits::bits_of(frame@)) {
            None => r is None,
            Some((i, rest)) => match payloads_in(rest) {
                None => r is None,
                Some(ps) => {
                    &&& r matches Some(p)
                    &&& p.bit == i
                    &&& emdf::contents(p.payloads@) == ps
                    &&& match first_payload(ps, PAYLOAD_JOC) {
                        None => p.joc is None,
                        Some(j) => {
                            &&& p.joc matches Some((f, n))
                            &&& n == j.len()
                            &&& match joc::frame_at(*tables, bits::bits_of(j)) {
                                Ok(v) => f matches Ok(x) && x@ == v,
                                Err(e) => f == Err::<JocFrame, JocError>(e),
                            }
                        },
                    }
                },
            },
        },
{
    let ghost s = bits::bits_of(frame@);
    match find_emdf_anywhere(frame) {
        None => None,
        Some((bit, rest)) => {
            proof {
                lemma_first_emdf(s, 0);
                lemma_rest_len(s, bit as int);
                lemma_container_len(rest@);
            }
            match extract_emdf_payloads(&rest) {
                None => None,
                Some(payloads) => {
                    let joc = match find_payload(&payloads, PAYLOAD_JOC) {
                        None => None,
                        Some(i) => {
                            proof {
                                let c = emdf::container_in(rest@)->0;
                                assert(emdf::contents(payloads@)[i as int] == (
                                    payloads@[i as int].0,
                                    payloads@[i as int].1@,
                                ));
                                lemma_extracted_len(c, PAYLOADS_BIT as int, i as int);
                            }
                            let n = payloads[i].1.len();
                            Some((decode_joc(&payloads[i].1, tables), n))
                        },
                    };
                    Some(EmdfProbe { bit, payloads, joc })
                },
            }
        },
    }
}

/// Each counter follows the one before it, modulo 1024.
pub open spec fn counts_up(seqs: Seq<u16>) -> bool {
    forall|i: int| 0 <= i && i + 1 < seqs.len() ==> #[trigger] seqs[i + 1] == (seqs[i] + 1) % 1024
}

/// Whether sequence counters count up, modulo 1024.
pub fn seq_monotonic(seqs: &Vec<u16>) -> (b: bool)
    ensures
        b == counts_up(seqs@),
{
    let mut i: usize = 1;
    while i < seqs.len()
        invariant
            1 <= i,
            i <= seqs@.len() || i == 1,
            forall|k: int|
                0 <= k && k + 1 < i && k + 1 < seqs@.len() ==> #[trigger] seqs@[k + 1] == (seqs@[k]
                    + 1) % 1024,
        decreases seqs@.len() - i,
    {
        let want = ((seqs[i - 1] as u32 + 1) % 1024) as u16;
        if seqs[i] != want {
            assert(seqs@[(i - 1) + 1] == seqs@[i as int]);
            return false;
        }
        i = i + 1;
    }
    true
}

// ------------------------------------------------------------------ moving metadata between streams

/// The bytes of the container at the start of `data`, by its length field.
pub open spec fn container_bytes(data: Seq<u8>) -> Option<int> {
    if data.len() < 4 {
        None
    } else {
        Some(4 + 256 * data[2] + data[3])
    }
}

fn emdf_container(data: &[u8]) -> (r: Option<usize>)
    ensures
        match r {
            Some(n) => container_bytes(data@) == Some(n as int) && 4 <= n <= 65539,
            None => container_bytes(data@) is None,
        },
{
    if data.len() < 4 {
        None
    } else {
        Some(4 + 256 * data[2] as usize + data[3] as usize)
    }
}

/// `data` up to `n` bytes.
pub open spec fn cut(data: Seq<u8>, n: int) -> Seq<u8> {
    if n <= data.len() {
        data.take(n)
    } else {
        data
    }
}

fn cut_to(data: &[u8], n: usize) -> (r: Vec<u8>)
    ensures
        r@ == cut(data@, n as int),
{
    let k: usize = if n <= data.len() {
        n
    } else {
        data.len()
    };
    let r = slice_to_vec(&data[0..k]);
    assert(r@ =~= cut(data@, n as int));
    r
}

/// The container in `data` has a JOC payload.
pub open spec fn has_joc(data: Seq<u8>) -> bool {
    joc_payload_in(data) is Some
}

fn check_joc(data: &[u8]) -> (b: bool)
    requires
        oamd::addressable(data@.len()),
    ensures
        b == has_joc(data@),
{
    match extract_emdf_payloads(data) {
        Some(payloads) => find_payload(&payloads, PAYLOAD_JOC).is_some(),
        None => false,
    }
}

/// The container of a core frame and the one to put in its place: where the native one stands, its
/// bytes, and the new one. None if the native one has no JOC, or the new one does not fit in its place.
pub open spec fn splice_plan(core: Seq<bool>, mine: Seq<bool>) -> Option<(int, int, Seq<u8>)> {
    match (emdf_in(core), emdf_in(mine)) {
        (Some((at, native)), Some((_, my))) => {
            match (container_bytes(native), container_bytes(my)) {
                (Some(n), Some(m)) => if has_joc(cut(native, n)) && m <= my.len() && m <= n {
                    Some((at, n, my.take(m)))
                } else {
                    None
                },
                _ => None,
            }
        },
        _ => None,
    }
}

/// The core frame with the EMDF of `mine` in place of its native one. None if that cannot be done.
pub open spec fn grafted(
    core: Seq<bool>,
    info: FrameInfo,
    mine: Seq<bool>,
    complexity: Option<u8>,
) -> Option<Seq<bool>> {
    match splice_plan(core, mine) {
        None => None,
        Some((at, n, my)) => if inject::can_splice(core, info, at, n, my.len() as int) {
            Some(
                inject::sealed(
                    inject::spliced(core, info, at, n, bits::bits_of(my), complexity).take(
                        core.len() - 16,
                    ),
                ),
            )
        } else {
            None
        },
    }
}

/// Splices the EMDF of `mine` into the core frame in place of its native one. None if that cannot be
/// done.
pub fn graft_core_frame(core: &[u8], info: &FrameInfo, mine: &[u8], complexity: Option<u8>) -> (r:
    Option<Vec<u8>>)
    requires
        oamd::addressable(core@.len() + 2),
        oamd::addressable(mine@.len() + 2),
    ensures
        match grafted(bits::bits_of(core@), *info, bits::bits_of(mine@), complexity) {
            None => r is None,
            Some(b) => r matches Some(out) && bits::bits_of(out@) == b,
        },
{
    let (at, native) = match find_emdf_anywhere(core) {
        Some(r) => r,
        None => {
            return None;
        },
    };
    proof {
        lemma_first_emdf(bits::bits_of(core@), 0);
        lemma_rest_len(bits::bits_of(core@), at as int);
    }
    let n = match emdf_container(&native) {
        Some(n) => n,
        None => {
            return None;
        },
    };
    // A native match without JOC is no real EMDF.
    if !check_joc(&cut_to(&native, n)) {
        return None;
    }
    let (_, my) = match find_emdf_anywhere(mine) {
        Some(r) => r,
        None => {
            return None;
        },
    };
    let m = match emdf_container(&my) {
        Some(m) => m,
        None => {
            return None;
        },
    };
    if m > my.len() || m > n {
        return None;
    }
    let piece = cut_to(&my, m);
    splice_emdf_into_core(core, info, at, n, &piece, complexity)
}

/// Most bytes of a container that is taken from a reference frame.
pub const MAX_REFERENCE_BYTES: usize = 480;

/// The container and the additional information of a reference frame. None if what looks like a
/// container is too large, has no JOC, or the frame has no additional information.
pub open spec fn reference_of(s: Seq<bool>, info: FrameInfo) -> Option<(Seq<u8>, Seq<u8>)> {
    let p = bsi::addbsie_pos(s, info);
    match emdf_in(s) {
        Some((_, rest)) => {
            let n = 4 + 256 * rest[2] + rest[3];
            if n > rest.len() || n > MAX_REFERENCE_BYTES || !has_joc(rest.take(n)) || info.bsid != 16
                || !bits::bit(s, p) {
                None
            } else {
                Some((rest.take(n), bsi::bytes_at(s, p + 7, bsi::addbsi_len(s, info))))
            }
        },
        None => None,
    }
}

/// The EMDF container and the raw addbsi of a reference frame.
pub fn reference_metadata(frame: &[u8], info: &FrameInfo) -> (r: Option<(Vec<u8>, Vec<u8>)>)
    requires
        oamd::addressable(frame@.len() + 2),
    ensures
        match reference_of(bits::bits_of(frame@), *info) {
            None => r is None,
            Some((e, a)) => r matches Some((x, y)) && x@ == e && y@ == a,
        },
{
    let ghost s = bits::bits_of(frame@);
    let (at, rest) = match find_emdf_anywhere(frame) {
        Some(r) => r,
        None => {
            return None;
        },
    };
    proof {
        lemma_first_emdf(s, 0);
        bits::lemma_pack_bits(s.skip(at as int));
        lemma_rest_len(s, at as int);
    }
    let n = match emdf_container(&rest) {
        Some(n) => n,
        None => {
            return None;
        },
    };
    // A real EMDF fits one skip field and holds a JOC payload.
    if n > rest.len() || n > MAX_REFERENCE_BYTES {
        return None;
    }
    let emdf = cut_to(&rest, n);
    if !check_joc(&emdf) {
        return None;
    }
    match read_addbsi_raw(frame, info) {
        Some((_, addbsi)) => Some((emdf, addbsi)),
        None => None,
    }
}

// ------------------------------------------------------------------ walking and counting frames

/// What the walk over a frame's audio blocks says.
pub enum WalkCheck {
    /// The frame is outside the supported subset.
    Unsupported,
    /// The skip field points, where the blocks end, and how far that is in front of the tail.
    Walked { points: Vec<usize>, end: usize, diff: i64 },
}

/// The walk over the audio blocks of the frame `s`, wherever its audio frame starts.
pub open spec fn frame_blocks(s: Seq<bool>, info: FrameInfo) -> Option<eac3_audblk::Walk> {
    if info.bsid == 16 {
        eac3_audblk::frame_walk(s, info, bsi::audfrm_pos(s, info))
    } else {
        None
    }
}

/// Walks all 6 blocks of a frame, wherever its audio frame starts: the skip field points, and where the
/// blocks end.
pub fn walk_blocks(frame: &[u8], info: &FrameInfo) -> (r: Option<(Vec<usize>, usize)>)
    ensures
        match frame_blocks(bits::bits_of(frame@), *info) {
            None => r is None,
            Some(w) => r matches Some((points, end)) && points@.map_values(|p: usize| p as int)
                == w.points && end == w.pos && end <= 0x20_0000,
        },
{
    let start = match audfrm_start_bit(frame, info) {
        Some(b) => b,
        None => {
            return None;
        },
    };
    skip_points(frame, info, start)
}

/// Walks all 6 blocks of a frame: the walk should end exactly at the frame's aux/errorcheck tail.
pub fn check_walk(frame: &[u8], info: &FrameInfo) -> (c: WalkCheck)
    requires
        8 * info.size <= i64::MAX,
    ensures
        match frame_blocks(bits::bits_of(frame@), *info) {
            None => c is Unsupported,
            Some(w) => {
                &&& c matches WalkCheck::Walked { points, end, diff }
                &&& points@.map_values(|p: usize| p as int) == w.points
                &&& end == w.pos
                &&& diff == 8 * info.size - TAIL_BITS - w.pos
            },
        },
{
    match walk_blocks(frame, info) {
        None => WalkCheck::Unsupported,
        Some((points, end)) => {
            let diff: i64 = (info.size as i64 * 8 - 18) - end as i64;
            WalkCheck::Walked { points, end, diff }
        },
    }
}

/// The substream of a frame: stream type and substream id in one number.
pub open spec fn substream_of(f: FrameInfo) -> u32 {
    (256 * f.strmtyp + f.substreamid) as u32
}

/// How many frames each substream has, ordered by stream type and substream id.
pub fn count_substreams(frames: &Vec<FrameInfo>) -> (counts: Vec<(u32, usize)>)
    ensures
        tally::counts_ok(counts@, frames@.map_values(|f: FrameInfo| substream_of(f))),
{
    let mut keys: Vec<u32> = Vec::new();
    let mut i: usize = 0;
    let ghost all = frames@.map_values(|f: FrameInfo| substream_of(f));
    assert(all.take(0) =~= Seq::empty());
    while i < frames.len()
        invariant
            i <= frames@.len(),
            all == frames@.map_values(|f: FrameInfo| substream_of(f)),
            keys@ == all.take(i as int),
        decreases frames@.len() - i,
    {
        let f = frames[i];
        keys.push(256 * f.strmtyp as u32 + f.substreamid as u32);
        assert(all.take(i + 1) =~= all.take(i as int).push(all[i as int]));
        i = i + 1;
    }
    assert(all.take(i as int) =~= all);
    tally(&keys)
}

/// How many of the first `n` frames are independent.
pub open spec fn independent_count(frames: Seq<FrameInfo>, n: nat) -> nat
    decreases n,
{
    if n == 0 {
        0
    } else {
        independent_count(frames, (n - 1) as nat) + (if frames[n - 1].strmtyp == 0 {
            1nat
        } else {
            0
        })
    }
}

/// How many frames are independent.
pub fn count_independent(frames: &Vec<FrameInfo>) -> (r: usize)
    ensures
        r == independent_count(frames@, frames@.len()),
{
    let mut r: usize = 0;
    let mut i: usize = 0;
    while i < frames.len()
        invariant
            i <= frames.len(),
            r <= i,
            r == independent_count(frames@, i as nat),
        decreases frames@.len() - i,
    {
        if frames[i].strmtyp == 0 {
            r = r + 1;
        }
        i = i + 1;
    }
    r
}

/// The bytes of the first `n` frames.
pub open spec fn bytes_in(frames: Seq<FrameInfo>, n: nat) -> nat
    decreases n,
{
    if n == 0 {
        0
    } else {
        bytes_in(frames, (n - 1) as nat) + frames[n - 1].size as nat
    }
}

proof fn lemma_bytes_mono(frames: Seq<FrameInfo>, m: nat, n: nat)
    requires
        m <= n,
    ensures
        bytes_in(frames, m) <= bytes_in(frames, n),
    decreases n,
{
    if m < n {
        lemma_bytes_mono(frames, m, (n - 1) as nat);
    }
}

/// The bytes of all frames.
pub fn total_bytes(frames: &Vec<FrameInfo>) -> (r: usize)
    requires
        bytes_in(frames@, frames@.len()) <= usize::MAX,
    ensures
        r == bytes_in(frames@, frames@.len()),
{
    let mut r: usize = 0;
    let mut i: usize = 0;
    while i < frames.len()
        invariant
            i <= frames@.len(),
            bytes_in(frames@, frames@.len()) <= usize::MAX,
            r == bytes_in(frames@, i as nat),
        decreases frames@.len() - i,
    {
        proof {
            lemma_bytes_mono(frames@, (i + 1) as nat, frames@.len());
        }
        r = r + frames[i].size;
        i = i + 1;
    }
    r
}

// ------------------------------------------------------------------ what is carried reads back

/// A frame that carries the additional information of some objects is found to announce their
/// complexity index, and no other number, however it carries the EMDF.
pub proof fn law_carried_flag(
    s: Seq<bool>,
    info: FrameInfo,
    out_info: FrameInfo,
    objects: int,
    emdf: Seq<u8>,
)
    requires
        bsi::same_layout(info, out_info),
        1 <= objects,
        carriage_of(s, info, 2, emdf.len() as int) != Carriage::Impossible,
    ensures
        forall|k: int|
            #[trigger] flag_ok(carried(s, info, addbsi_for(objects), emdf), out_info, k) <==> k
                == announced(objects),
{
    let a = addbsi_for(objects);
    let out = carried(s, info, a, emdf);
    let p = bsi::addbsie_pos(out, out_info);
    assert(a.len() == 2 && a[0] == 1 && a[1] == announced(objects));
    assert(bits::bits_of(emdf).len() == 8 * emdf.len());
    assert(bits::bits_of(a).len() == 16);
    if inject::can_skip(s, info, 2, emdf.len() as int, SKIP_BLOCK as int) {
        inject::law_skip_roundtrip(s, info, out_info, a, emdf, SKIP_BLOCK as int, 0, 0);
    } else {
        inject::law_full_roundtrip(s, info, out_info, a, bits::bits_of(emdf), 0);
    }
    assert(bsi::bytes_at(out, p + 7, 2) == a);
    lemma_flag_bytes(out, p, announced(objects));
}

/// The two bytes of the additional information hold flag and complexity index.
proof fn lemma_flag_bytes(s: Seq<bool>, p: int, objects: int)
    requires
        0 <= objects <= 255,
        bsi::bytes_at(s, p + 7, 2) == seq![1u8, objects as u8],
    ensures
        bits::bit(s, p + 14),
        bits::field(s, p + 15, 8) == objects,
{
    let b = bsi::bytes_at(s, p + 7, 2);
    bits::lemma_two_values();
    bits::lemma_field_bound(s, p + 7, 8);
    bits::lemma_field_bound(s, p + 15, 8);
    assert(b[0] == bits::field(s, p + 7, 8) as u8);
    assert(b[1] == bits::field(s, p + 15, 8) as u8);
    assert(bits::field(s, p + 7, 8) == 2 * bits::field(s, p + 7, 7) + (if bits::bit(s, p + 14) {
        1int
    } else {
        0
    }));
}

/// OAMD in the auxiliary data of a frame is found there.
pub proof fn lemma_oamd_in_aux<P: EmdfProtector>(
    s: Seq<bool>,
    data: Seq<u8>,
    objects: Seq<ObjectCode>,
    prot: P,
)
    requires
        oamd::all_ok(objects),
        oamd::element_len(objects.len() as int, true) <= 4368,
        bits::bits_of(data) == emdf::container_bits(
            seq![(PAYLOAD_OAMD, bits::pack(oamd::oamd_bits(objects, true)))],
            prot,
        ),
        inject::aux_of(s) == Some(bits::bits_of(data)),
    ensures
        aux_oamd_ok(s, objects.len() as int + 1) == Some(true),
{
    let o = oamd::oamd_bits(objects, true);
    let none = Seq::<(u8, Seq<u8>)>::empty();
    emdf::lemma_oamd_size(objects, true);
    bits::lemma_two_values();
    bits::lemma_two_add(8, 8);
    assert(seq![(PAYLOAD_OAMD, bits::pack(o))] =~= seq![(PAYLOAD_OAMD, bits::pack(o))] + none);
    emdf::lemma_frame_oamd(data, o, none, prot);
    let c = bits::bits_of(data);
    bits::lemma_pack_of_bits(data);
    let at = emdf::oamd_start(c, PAYLOADS_BIT as int)->0;
    oamd::lemma_oamd_read(c, at, objects, true);
}

/// The OAMD that is put into the auxiliary data of a frame is found there, with its objects and the LFE
/// bed.
pub proof fn law_aux_oamd<P: EmdfProtector>(
    s: Seq<bool>,
    data: Seq<u8>,
    objects: Seq<ObjectCode>,
    prot: P,
)
    requires
        s.len() >= 48,
        oamd::all_ok(objects),
        oamd::element_len(objects.len() as int, true) <= 4368,
        bits::bits_of(data) == emdf::container_bits(
            seq![(PAYLOAD_OAMD, bits::pack(oamd::oamd_bits(objects, true)))],
            prot,
        ),
        8 * data.len() < 16384,
    ensures
        aux_oamd_ok(
            inject::sealed(inject::aux_frame(s, bits::bits_of(data))),
            objects.len() as int + 1,
        ) == Some(true),
{
    emdf::lemma_container(
        seq![(PAYLOAD_OAMD, bits::pack(oamd::oamd_bits(objects, true)))],
        prot,
    );
    inject::law_aux_roundtrip(s, bits::bits_of(data));
    lemma_oamd_in_aux(
        inject::sealed(inject::aux_frame(s, bits::bits_of(data))),
        data,
        objects,
        prot,
    );
}

/// The metadata of a frame is found in its EMDF, whatever follows it: four payloads, the OAMD with the
/// objects and their bed, and the JOC payload as it was encoded.
pub proof fn law_frame_emdf<P: EmdfProtector>(
    data: Seq<u8>,
    objects: Seq<ObjectCode>,
    joc: Seq<u8>,
    prot: P,
)
    requires
        oamd::all_ok(objects),
        oamd::element_len(objects.len() as int, true) <= 4368,
        joc.len() <= 20000,
        bits::has(
            bits::bits_of(data),
            0,
            emdf::container_bits(
                atmos_payloads(bits::pack(oamd::oamd_bits(objects, true)), joc),
                prot,
            ),
        ),
    ensures
        payloads_in(data) == Some(atmos_payloads(bits::pack(oamd::oamd_bits(objects, true)), joc)),
        joc_payload_in(data) == Some(joc),
        oamd_objects_in(data) == Some(objects.len() as int + 1),
{
    let o = oamd::oamd_bits(objects, true);
    let ps = atmos_payloads(bits::pack(o), joc);
    assert(bits::pack(o).len() <= 600) by {
        emdf::lemma_oamd_size(objects, true);
    }
    lemma_payloads_ok(bits::pack(o), joc);
    emdf::law_emdf_roundtrip(data, ps, prot);
    let first = seq![(PAYLOAD_OAMD, bits::pack(o))];
    assert(ps =~= first + ps.skip(1));
    emdf::lemma_frame_oamd(data, o, ps.skip(1), prot);
    let c = bits::bits_of(data);
    oamd::lemma_oamd_read(c, emdf::oamd_start(c, PAYLOADS_BIT as int)->0, objects, true);
}

/// The payloads of a frame can be wrapped, and the JOC payload is found among them.
proof fn lemma_payloads_ok(oamd: Seq<u8>, joc: Seq<u8>)
    requires
        oamd.len() <= 600,
        joc.len() <= 20000,
    ensures
        emdf::ids_ok(atmos_payloads(oamd, joc)),
        emdf::sizes_ok(atmos_payloads(oamd, joc)),
        bits::var_fits(oamd.len(), 8),
        first_payload(atmos_payloads(oamd, joc), PAYLOAD_JOC) == Some(joc),
{
    let ps = atmos_payloads(oamd, joc);
    bits::lemma_two_values();
    bits::lemma_two_add(8, 8);
    assert(ps.skip(1)[0] == ps[1]);
    assert(first_payload(ps.skip(1), PAYLOAD_JOC) == Some(joc));
}

/// Where the EMDF stands in a frame that carries it, by the bytes of additional information and EMDF.
pub open spec fn emdf_pos(s: Seq<bool>, info: FrameInfo, addbsi: int, emdf: int) -> int {
    if inject::can_skip(s, info, addbsi, emdf, SKIP_BLOCK as int) {
        inject::skip_start(
            s,
            info,
            eac3_audblk::frame_walk(s, info, bsi::addbsie_pos(s, info) + 1)->0.points,
            8 * addbsi,
            8 * emdf,
            SKIP_BLOCK as int,
            SKIP_BLOCK as int,
        ) + 10
    } else {
        8 * inject::frame_bytes(inject::full_need(s.len() as int, 8 * addbsi, 8 * emdf)) - 32 - 8 * emdf
    }
}

proof fn lemma_skip_emdf(s: Seq<bool>, info: FrameInfo, addbsi: Seq<u8>, emdf: Seq<u8>)
    requires
        1 <= addbsi.len() <= 64,
        emdf.len() <= MAX_SKIP_BYTES,
        inject::can_skip(s, info, addbsi.len() as int, emdf.len() as int, SKIP_BLOCK as int),
        walk_inside(s, info),
    ensures
        bits::has(
            carried(s, info, addbsi, emdf),
            emdf_pos(s, info, addbsi.len() as int, emdf.len() as int),
            bits::bits_of(emdf),
        ),
{
    let k = SKIP_BLOCK as int;
    let e = bits::bits_of(emdf);
    let out = carried(s, info, addbsi, emdf);
    let points = eac3_audblk::frame_walk(s, info, bsi::addbsie_pos(s, info) + 1)->0.points;
    let start = inject::skip_start(s, info, points, 8 * addbsi.len() as int, 8 * emdf.len() as int, k, k);
    let block = s.subrange(points[k], inject::part_end(points, s.len() - TAIL_BITS, k));
    assert(e.len() == 8 * emdf.len());
    assert(bits::bits_of(addbsi).len() == 8 * addbsi.len());
    bits::lemma_be_len(e.len() / 8, 9);
    inject::law_skip_roundtrip(s, info, info, addbsi, emdf, k, 0, k);
    let piece = inject::skip_field(e, true) + block;
    assert(out.subrange(start, start + piece.len()) == piece);
    assert forall|i: int| 0 <= i < e.len() implies #[trigger] e[i] == out[start + 10 + i] by {
        assert(piece[10 + i] == e[i]);
        assert(out.subrange(start, start + piece.len())[10 + i] == out[start + 10 + i]);
    }
}

proof fn lemma_aux_emdf(s: Seq<bool>, info: FrameInfo, addbsi: Seq<u8>, emdf: Seq<u8>)
    requires
        1 <= addbsi.len() <= 64,
        emdf.len() <= MAX_SKIP_BYTES,
        !inject::can_skip(s, info, addbsi.len() as int, emdf.len() as int, SKIP_BLOCK as int),
        can_aux(s, info, addbsi.len() as int, emdf.len() as int),
    ensures
        bits::has(
            carried(s, info, addbsi, emdf),
            emdf_pos(s, info, addbsi.len() as int, emdf.len() as int),
            bits::bits_of(emdf),
        ),
{
    let e = bits::bits_of(emdf);
    let a = bits::bits_of(addbsi);
    let p = bsi::addbsie_pos(s, info);
    let out = carried(s, info, addbsi, emdf);
    assert(e.len() == 8 * emdf.len());
    assert(a.len() == 8 * addbsi.len());
    bsi::lemma_bsi_bounds(s, info);
    inject::lemma_full_size(s, p, a, e);
    let at = out.len() - 32 - e.len();
    if e.len() > 0 {
        inject::lemma_full_aux(s, p, a, e);
        let aux = inject::aux_of(out)->0;
        assert(aux == e);
        assert forall|i: int| 0 <= i < e.len() implies #[trigger] e[i] == out[at + i] by {
            assert(aux[i] == out[at + i]);
        }
    }
}

/// The EMDF that a frame carries stands in it bit by bit.
pub proof fn law_carried_emdf(s: Seq<bool>, info: FrameInfo, addbsi: Seq<u8>, emdf: Seq<u8>)
    requires
        1 <= addbsi.len() <= 64,
        carriage_of(s, info, addbsi.len() as int, emdf.len() as int) != Carriage::Impossible,
    ensures
        bits::has(
            carried(s, info, addbsi, emdf),
            emdf_pos(s, info, addbsi.len() as int, emdf.len() as int),
            bits::bits_of(emdf),
        ),
{
    if inject::can_skip(s, info, addbsi.len() as int, emdf.len() as int, SKIP_BLOCK as int) {
        lemma_skip_emdf(s, info, addbsi, emdf);
    } else {
        lemma_aux_emdf(s, info, addbsi, emdf);
    }
}

/// The metadata of a frame is found in any bits in which its EMDF is the first thing that looks like
/// one: the OAMD with the objects and their bed, and the JOC with its objects.
pub proof fn law_found_metadata<P: EmdfProtector>(
    out: Seq<bool>,
    at: int,
    objects: Seq<ObjectCode>,
    tables: JocTables,
    codes: Seq<[i32; 5]>,
    seq: u16,
    prot: P,
)
    requires
        oamd::all_ok(objects),
        oamd::element_len(objects.len() as int, true) <= 4368,
        1 <= codes.len() <= 64,
        joc::codes_ok(codes),
        joc::tree_ok(tables.fine_generic@, 0, joc::MAX_CODE_BITS as nat),
        joc::covers_fine(tables.fine_generic@),
        tables.num_bands[joc::ENC_BANDS_IDX as int] == joc::ENC_BANDS,
        bits::has(
            out,
            at,
            emdf::container_bits(
                atmos_payloads(
                    bits::pack(oamd::oamd_bits(objects, true)),
                    bits::pack(joc::joc_bits(tables.fine_generic@, codes, seq)),
                ),
                prot,
            ),
        ),
        joc::first_emdf(out, 0) == Some(at),
    ensures
        oamd_ok(out, objects.len() as int + 1),
        joc_ok(tables, out, codes.len() as int),
{
    let j = bits::pack(joc::joc_bits(tables.fine_generic@, codes, seq));
    let c = emdf::container_bits(atmos_payloads(bits::pack(oamd::oamd_bits(objects, true)), j), prot);
    let rest = bits::pack(out.skip(at));
    lemma_joc_size(tables.fine_generic@, codes, seq);
    bits::lemma_pack_bits(out.skip(at));
    assert(bits::has(bits::bits_of(rest), 0, c)) by {
        assert forall|i: int| 0 <= i < c.len() implies #[trigger] c[i] == bits::bits_of(rest)[0 + i] by {
            assert(c[i] == out[at + i]);
            assert(out.skip(at)[i] == out[at + i]);
        }
    }
    law_frame_emdf(rest, objects, j, prot);
    joc::law_joc_roundtrip(tables, codes, seq);
}

/// A frame that carries the metadata of some dynamic objects is found to have all of it, where its EMDF
/// is the first thing in it that looks like one. It announces their number, the LFE bed added, up to 16.
pub proof fn law_carried_metadata<P: EmdfProtector>(
    s: Seq<bool>,
    info: FrameInfo,
    out_info: FrameInfo,
    emdf: Seq<u8>,
    objects: Seq<ObjectCode>,
    tables: JocTables,
    codes: Seq<[i32; 5]>,
    seq: u16,
    prot: P,
)
    requires
        bsi::same_layout(info, out_info),
        oamd::all_ok(objects),
        oamd::element_len(objects.len() as int, true) <= 4368,
        1 <= codes.len() <= 64,
        joc::codes_ok(codes),
        joc::tree_ok(tables.fine_generic@, 0, joc::MAX_CODE_BITS as nat),
        joc::covers_fine(tables.fine_generic@),
        tables.num_bands[joc::ENC_BANDS_IDX as int] == joc::ENC_BANDS,
        bits::bits_of(emdf) == emdf::container_bits(
            atmos_payloads(
                bits::pack(oamd::oamd_bits(objects, true)),
                bits::pack(joc::joc_bits(tables.fine_generic@, codes, seq)),
            ),
            prot,
        ),
        carriage_of(s, info, 2, emdf.len() as int) != Carriage::Impossible,
        joc::first_emdf(carried(s, info, addbsi_for(objects.len() as int + 1), emdf), 0) == Some(
            emdf_pos(s, info, 2, emdf.len() as int),
        ),
    ensures
        ({
            let out = carried(s, info, addbsi_for(objects.len() as int + 1), emdf);
            &&& flag_ok(out, out_info, objects.len() as int + 1) == (objects.len() <= 15)
            &&& oamd_ok(out, objects.len() as int + 1)
            &&& joc_ok(tables, out, codes.len() as int)
        }),
{
    let n = objects.len() as int + 1;
    let a = addbsi_for(n);
    let out = carried(s, info, a, emdf);
    emdf::lemma_container(
        atmos_payloads(
            bits::pack(oamd::oamd_bits(objects, true)),
            bits::pack(joc::joc_bits(tables.fine_generic@, codes, seq)),
        ),
        prot,
    );
    law_carried_flag(s, info, out_info, n, emdf);
    law_carried_emdf(s, info, a, emdf);
    law_found_metadata(
        out,
        emdf_pos(s, info, 2, emdf.len() as int),
        objects,
        tables,
        codes,
        seq,
        prot,
    );
}

} // verus!
