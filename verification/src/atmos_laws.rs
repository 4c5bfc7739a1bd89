//! What a frame gives back of the metadata it was given: as a reference, by its signals, and in the place
//! of another frame's.

use crate::atmos;
use crate::atmos::{Carriage, Signals};
use crate::bits;
use crate::bsi;
use crate::eac3::FrameInfo;
use crate::eac3_audblk;
use crate::emdf;
use crate::inject;
use crate::joc;
use crate::joc::JocTables;
use crate::oamd;
use crate::oamd::ObjectCode;
use crate::protect::EmdfProtector;
use vstd::prelude::*;

verus! {

// ------------------------------------------------------------------ references

/// Bytes that stand in some bits come first when these are packed from there on.
proof fn lemma_found_bytes(out: Seq<bool>, at: int, e: Seq<u8>)
    requires
        bits::has(out, at, bits::bits_of(e)),
    ensures
        bits::pack(out.skip(at)).len() >= e.len(),
        bits::pack(out.skip(at)).take(e.len() as int) == e,
{
    let t = out.skip(at);
    let r = bits::pack(t);
    let b = bits::bits_of(e);
    bits::lemma_pack_of_bits(e);
    assert(b.len() == 8 * e.len());
    assert forall|k: int| 0 <= k < e.len() implies #[trigger] r[k] == e[k] by {
        assert forall|i: int| 0 <= i < 8 implies bits::bit(t, #[trigger] (8 * k + i)) == bits::bit(
            b,
            8 * k + i,
        ) by {
            assert(b[8 * k + i] == out[at + (8 * k + i)]);
        }
        bits::lemma_field_ext(t, 8 * k, b, 8 * k, 8);
        assert(bits::pack(b)[k] == e[k]);
    }
    assert(r.take(e.len() as int) =~= e);
}

/// The length field of a container tells its bytes.
pub open spec fn sized(e: Seq<u8>) -> bool {
    e.len() >= 4 && e.len() == 4 + 256 * e[2] + e[3]
}

/// A frame that was given a container of at most 480 bytes with a JOC payload, and additional
/// information, yields exactly these as a reference, where the container is the first thing in it that
/// looks like one.
pub proof fn law_reference(
    s: Seq<bool>,
    info: FrameInfo,
    out_info: FrameInfo,
    addbsi: Seq<u8>,
    emdf: Seq<u8>,
)
    requires
        bsi::same_layout(info, out_info),
        1 <= addbsi.len() <= 64,
        sized(emdf),
        emdf.len() <= 480,
        atmos::has_joc(emdf),
        atmos::carriage_of(s, info, addbsi.len() as int, emdf.len() as int) != Carriage::Impossible,
        joc::first_emdf(atmos::carried(s, info, addbsi, emdf), 0) == Some(
            atmos::emdf_pos(s, info, addbsi.len() as int, emdf.len() as int),
        ),
    ensures
        atmos::reference_of(atmos::carried(s, info, addbsi, emdf), out_info) == Some((emdf, addbsi)),
{
    let out = atmos::carried(s, info, addbsi, emdf);
    let at = atmos::emdf_pos(s, info, addbsi.len() as int, emdf.len() as int);
    let rest = bits::pack(out.skip(at));
    let p = bsi::addbsie_pos(out, out_info);
    atmos::law_carried_emdf(s, info, addbsi, emdf);
    lemma_found_bytes(out, at, emdf);
    assert(rest.take(emdf.len() as int)[2] == rest[2]);
    assert(rest.take(emdf.len() as int)[3] == rest[3]);
    assert(bits::bits_of(emdf).len() == 8 * emdf.len());
    assert(bits::bits_of(addbsi).len() == 8 * addbsi.len());
    if inject::can_skip(
        s,
        info,
        addbsi.len() as int,
        emdf.len() as int,
        atmos::SKIP_BLOCK as int,
    ) {
        inject::law_skip_roundtrip(
            s,
            info,
            out_info,
            addbsi,
            emdf,
            atmos::SKIP_BLOCK as int,
            0,
            0,
        );
    } else {
        inject::law_full_roundtrip(s, info, out_info, addbsi, bits::bits_of(emdf), 0);
    }
    assert(bsi::bytes_at(out, p + 7, addbsi.len()) == addbsi);
}

/// A container with a JOC payload behind others that are none, however it is protected, is one that a
/// reference can have, where it keeps to 480 bytes.
pub proof fn law_container_reference<P: EmdfProtector>(
    e: Seq<u8>,
    payloads: Seq<(u8, Seq<u8>)>,
    k: int,
    prot: P,
)
    requires
        emdf::ids_ok(payloads),
        emdf::sizes_ok(payloads),
        bits::bits_of(e) == emdf::container_bits(payloads, prot),
        e.len() <= 480,
        0 <= k < payloads.len(),
        payloads[k].0 == 14,
        forall|i: int| 0 <= i < k ==> (#[trigger] payloads[i]).0 != 14,
    ensures
        sized(e),
        atmos::has_joc(e),
        atmos::joc_payload_in(e) == Some(payloads[k].1),
{
    lemma_container_sized(e, payloads, prot);
    lemma_container_payloads(e, payloads, prot);
    law_first_payload(payloads, 14, k);
}

proof fn lemma_container_payloads<P: EmdfProtector>(
    e: Seq<u8>,
    payloads: Seq<(u8, Seq<u8>)>,
    prot: P,
)
    requires
        emdf::ids_ok(payloads),
        emdf::sizes_ok(payloads),
        bits::bits_of(e) == emdf::container_bits(payloads, prot),
    ensures
        atmos::payloads_in(e) == Some(payloads),
{
    let c = emdf::container_bits(payloads, prot);
    assert(bits::has(c, 0, c));
    emdf::law_emdf_roundtrip(e, payloads, prot);
}

proof fn lemma_container_sized<P: EmdfProtector>(
    e: Seq<u8>,
    payloads: Seq<(u8, Seq<u8>)>,
    prot: P,
)
    requires
        bits::bits_of(e) == emdf::container_bits(payloads, prot),
        e.len() <= 480,
    ensures
        sized(e),
{
    let c = bits::bits_of(e);
    let n = bits::pack(emdf::body_bits(payloads, prot)).len();
    emdf::lemma_container(payloads, prot);
    assert(c.len() == 8 * e.len());
    assert(e.len() == 4 + n);
    lemma_length_field(e);
}

/// A field is two fields, one behind the other.
proof fn lemma_field_parts(s: Seq<bool>, p: int, a: nat, b: nat)
    ensures
        bits::field(s, p, a + b) == bits::field(s, p, a) * bits::two(b) + bits::field(s, p + a, b),
    decreases b,
{
    if b > 0 {
        let m = (b - 1) as nat;
        lemma_field_parts(s, p, a, m);
        let x = bits::field(s, p, a);
        let y = bits::field(s, p + a, m);
        assert(bits::two(b) == 2 * bits::two(m));
        assert(2 * (x * bits::two(m) + y) == x * (2 * bits::two(m)) + 2 * y) by (nonlinear_arith);
        assert((a + b - 1) as nat == a + m);
        assert(p + (a + b) - 1 == p + a + b - 1);
    } else {
        assert(bits::two(0) == 1);
    }
}

/// The 16 bits behind the syncword, byte by byte.
proof fn lemma_length_field(e: Seq<u8>)
    requires
        e.len() >= 4,
    ensures
        bits::field(bits::bits_of(e), 16, 16) == 256 * e[2] + e[3],
{
    let c = bits::bits_of(e);
    bits::lemma_pack_of_bits(e);
    bits::lemma_two_values();
    bits::lemma_field_bound(c, 16, 8);
    bits::lemma_field_bound(c, 24, 8);
    assert(bits::pack(c)[2] == bits::field(c, 16, 8) as u8);
    assert(bits::pack(c)[3] == bits::field(c, 24, 8) as u8);
    lemma_field_parts(c, 16, 8, 8);
}

/// What a reference yields is a container that its length field sizes, with a JOC payload and of no more
/// than 480 bytes, and the frame's additional information.
pub proof fn law_reference_sound(s: Seq<bool>, info: FrameInfo)
    requires
        atmos::reference_of(s, info) is Some,
    ensures
        ({
            let (e, a) = atmos::reference_of(s, info)->0;
            &&& sized(e)
            &&& e.len() <= 480
            &&& atmos::has_joc(e)
            &&& info.bsid == 16 && bits::bit(s, bsi::addbsie_pos(s, info))
            &&& a.len() == bsi::addbsi_len(s, info)
            &&& a == bsi::bytes_at(s, bsi::addbsie_pos(s, info) + 7, a.len())
            &&& joc::first_emdf(s, 0) matches Some(at) && bits::pack(s.skip(at)).take(e.len() as int) == e
        }),
{
    let at = joc::first_emdf(s, 0)->0;
    let rest = bits::pack(s.skip(at));
    let n = 4 + 256 * rest[2] + rest[3];
    assert(rest.take(n)[2] == rest[2]);
    assert(rest.take(n)[3] == rest[3]);
}

/// The first payload with an id is the one that has it and that none before it has.
pub proof fn law_first_payload(payloads: Seq<(u8, Seq<u8>)>, id: u8, k: int)
    requires
        0 <= k < payloads.len(),
        payloads[k].0 == id,
        forall|i: int| 0 <= i < k ==> (#[trigger] payloads[i]).0 != id,
    ensures
        atmos::first_payload(payloads, id) == Some(payloads[k].1),
    decreases k,
{
    if k > 0 {
        assert(payloads[0].0 != id);
        let more = payloads.skip(1);
        assert forall|i: int| 0 <= i < k - 1 implies (#[trigger] more[i]).0 != id by {
            assert(more[i] == payloads[i + 1]);
        }
        law_first_payload(more, id, k - 1);
    }
}

/// Where no payload has the id, none is found.
pub proof fn law_no_payload(payloads: Seq<(u8, Seq<u8>)>, id: u8)
    requires
        forall|i: int| 0 <= i < payloads.len() ==> (#[trigger] payloads[i]).0 != id,
    ensures
        atmos::first_payload(payloads, id) is None,
    decreases payloads.len(),
{
    if payloads.len() > 0 {
        assert(payloads[0].0 != id);
        let more = payloads.skip(1);
        assert forall|i: int| 0 <= i < more.len() implies (#[trigger] more[i]).0 != id by {
            assert(more[i] == payloads[i + 1]);
        }
        law_no_payload(more, id);
    }
}

/// The metadata of a frame is four payloads: OAMD with id 11, JOC with id 14, and two constant ones.
pub proof fn law_payloads(oamd: Seq<u8>, joc: Seq<u8>)
    ensures
        ({
            let p = atmos::atmos_payloads(oamd, joc);
            &&& p.len() == 4
            &&& p[0] == (11u8, oamd)
            &&& p[1] == (14u8, joc)
            &&& p[2] == (2u8, seq![0x04u8, 0x94, 0x80])
            &&& p[3] == (1u8, seq![0x02u8, 0x00])
        }),
{
}

// ------------------------------------------------------------------ room

/// A frame is as many words of 16 bits as it needs, and no more.
pub proof fn law_frame_bytes(n: int)
    requires
        n >= 0,
    ensures
        inject::frame_bytes(n) % 2 == 0,
        8 * inject::frame_bytes(n) >= n,
        8 * inject::frame_bytes(n) < n + 16,
{
}

/// A frame without additional information carries metadata wherever that leaves it within 4096 bytes:
/// EMDF of up to 511 bytes, and one byte or more of additional information. It carries it in a skip
/// field where its audio blocks can be walked, and in the auxiliary data where they cannot.
pub proof fn law_room(s: Seq<bool>, info: FrameInfo, addbsi: int, emdf: int)
    requires
        info.bsid == 16,
        !bits::bit(s, bsi::addbsie_pos(s, info)),
        bsi::addbsie_pos(s, info) + 1 <= s.len() - 18,
        1 <= addbsi,
        0 <= emdf <= 511,
        s.len() + 8 * addbsi + 8 * emdf + 30 <= 32768,
    ensures
        ({
            let walk = eac3_audblk::frame_walk(s, info, bsi::addbsie_pos(s, info) + 1);
            &&& walk is None ==> atmos::carriage_of(s, info, addbsi, emdf) == Carriage::Aux
            &&& walk is Some && walk->0.points[5] <= s.len() - 18 ==> atmos::carriage_of(
                s,
                info,
                addbsi,
                emdf,
            ) == Carriage::SkipField
            &&& walk is Some && walk->0.points[5] > s.len() - 18 ==> atmos::carriage_of(
                s,
                info,
                addbsi,
                emdf,
            ) == Carriage::Impossible
        }),
{
}

/// A frame carries no EMDF of more than 511 bytes, nothing without additional information, nothing where
/// it has some already, and nothing that would leave it with more than 4096 bytes.
pub proof fn law_no_room(s: Seq<bool>, info: FrameInfo, addbsi: int, emdf: int)
    requires
        addbsi < 1 || emdf > 511 || info.bsid != 16 || bits::bit(s, bsi::addbsie_pos(s, info)) || s.len()
            + 8 * addbsi + 8 * emdf > 32768,
    ensures
        atmos::carriage_of(s, info, addbsi, emdf) == Carriage::Impossible,
{
}

// ------------------------------------------------------------------ signals

/// A frame that carries metadata in its auxiliary data signals it there: the extension flag, auxiliary
/// data, and each of OAMD and JOC exactly where the container has such a payload.
pub proof fn law_aux_signals<P: EmdfProtector>(
    s: Seq<bool>,
    info: FrameInfo,
    out_info: FrameInfo,
    objects: int,
    emdf: Seq<u8>,
    payloads: Seq<(u8, Seq<u8>)>,
    prot: P,
)
    requires
        bsi::same_layout(info, out_info),
        1 <= objects,
        emdf::ids_ok(payloads),
        emdf::sizes_ok(payloads),
        bits::bits_of(emdf) == emdf::container_bits(payloads, prot),
        atmos::carriage_of(s, info, 2, emdf.len() as int) == Carriage::Aux,
    ensures
        atmos::signals_of(atmos::carried(s, info, atmos::addbsi_for(objects), emdf), out_info) == (
        Signals {
            flag: true,
            aux: true,
            oamd: exists|i: int| 0 <= i < payloads.len() && (#[trigger] payloads[i]).0 == 11,
            joc: exists|i: int| 0 <= i < payloads.len() && (#[trigger] payloads[i]).0 == 14,
        }),
{
    let a = atmos::addbsi_for(objects);
    let out = atmos::carried(s, info, a, emdf);
    let e = bits::bits_of(emdf);
    emdf::lemma_container(payloads, prot);
    assert(e.len() == 8 * emdf.len());
    assert(bits::bits_of(a).len() == 16);
    assert(e.len() >= 1);
    inject::law_full_roundtrip(s, info, out_info, a, e, 0);
    atmos::law_carried_flag(s, info, out_info, objects, emdf);
    assert(atmos::flag_ok(out, out_info, atmos::announced(objects)));
    assert(inject::aux_of(out) == Some(e));
    bits::lemma_pack_of_bits(emdf);
    emdf::law_emdf_roundtrip(emdf, payloads, prot);
    lemma_lists(payloads, 11);
    lemma_lists(payloads, 14);
}

proof fn lemma_lists(payloads: Seq<(u8, Seq<u8>)>, id: u8)
    ensures
        atmos::lists(payloads.map_values(|e: (u8, Seq<u8>)| (e.0, e.1.len())), id) <==> exists|i: int|
            0 <= i < payloads.len() && (#[trigger] payloads[i]).0 == id,
{
    let l = payloads.map_values(|e: (u8, Seq<u8>)| (e.0, e.1.len()));
    if exists|i: int| 0 <= i < payloads.len() && (#[trigger] payloads[i]).0 == id {
        let i = choose|i: int| 0 <= i < payloads.len() && (#[trigger] payloads[i]).0 == id;
        assert(l[i].0 == id);
    }
    if atmos::lists(l, id) {
        let i = choose|i: int| 0 <= i < l.len() && (#[trigger] l[i]).0 == id;
        assert(payloads[i].0 == id);
    }
}

/// A frame that carries metadata in a skip field signals it by the extension flag alone.
pub proof fn law_skip_signal(
    s: Seq<bool>,
    info: FrameInfo,
    out_info: FrameInfo,
    objects: int,
    emdf: Seq<u8>,
)
    requires
        bsi::same_layout(info, out_info),
        1 <= objects,
        atmos::carriage_of(s, info, 2, emdf.len() as int) == Carriage::SkipField,
    ensures
        atmos::signals_of(atmos::carried(s, info, atmos::addbsi_for(objects), emdf), out_info) == (
        Signals { flag: true, aux: false, oamd: false, joc: false }),
{
    let a = atmos::addbsi_for(objects);
    let out = atmos::carried(s, info, a, emdf);
    assert(bits::bits_of(emdf).len() == 8 * emdf.len());
    assert(bits::bits_of(a).len() == 16);
    inject::law_skip_signals(s, info, out_info, a, emdf, atmos::SKIP_BLOCK as int);
    atmos::law_carried_flag(s, info, out_info, objects, emdf);
    assert(atmos::flag_ok(out, out_info, atmos::announced(objects)));
}

/// The extension flag is the last bit of the first byte of the additional information, and the second
/// byte the number of objects that it announces, however long it is.
pub proof fn law_flag(s: Seq<bool>, info: FrameInfo, objects: int)
    requires
        info.bsid == 16,
        bits::bit(s, bsi::addbsie_pos(s, info)),
    ensures
        ({
            let n = bsi::addbsi_len(s, info);
            let a = bsi::bytes_at(s, bsi::addbsie_pos(s, info) + 7, n);
            &&& atmos::flag_ok(s, info, objects) <==> n >= 2 && a[0] % 2 == 1 && a[1] == objects
            &&& atmos::signals_of(s, info).flag <==> n >= 2 && a[0] % 2 == 1
        }),
{
    let p = bsi::addbsie_pos(s, info);
    let n = bsi::addbsi_len(s, info);
    let a = bsi::bytes_at(s, p + 7, n);
    bits::lemma_two_values();
    bits::lemma_field_bound(s, p + 7, 8);
    bits::lemma_field_bound(s, p + 15, 8);
    assert(bits::field(s, p + 7, 8) == 2 * bits::field(s, p + 7, 7) + (if bits::bit(s, p + 14) {
        1int
    } else {
        0
    }));
    if n >= 2 {
        assert(a[0] == bits::field(s, p + 7, 8) as u8);
        assert(a[1] == bits::field(s, p + 15, 8) as u8);
    }
}

/// Without additional information, or in a frame that is no E-AC-3 frame, nothing is announced.
pub proof fn law_no_flag(s: Seq<bool>, info: FrameInfo, objects: int)
    requires
        info.bsid != 16 || !bits::bit(s, bsi::addbsie_pos(s, info)),
    ensures
        !atmos::flag_ok(s, info, objects),
        !atmos::signals_of(s, info).flag,
        atmos::reference_of(s, info) is None,
{
}

/// OAMD in the auxiliary data of a frame is found to have its objects, the LFE bed among them, and no
/// other number; without an LFE bed it is not what it should be.
pub proof fn law_aux_objects<P: EmdfProtector>(
    s: Seq<bool>,
    data: Seq<u8>,
    objects: Seq<ObjectCode>,
    lfe: bool,
    prot: P,
    k: int,
)
    requires
        oamd::all_ok(objects),
        lfe || objects.len() > 0,
        oamd::element_len(objects.len() as int, lfe) <= 4368,
        bits::bits_of(data) == emdf::container_bits(
            seq![(11u8, bits::pack(oamd::oamd_bits(objects, lfe)))],
            prot,
        ),
        inject::aux_of(s) == Some(bits::bits_of(data)),
    ensures
        atmos::aux_oamd_ok(s, k) == Some(lfe && k == objects.len() + 1),
{
    let o = oamd::oamd_bits(objects, lfe);
    let none = Seq::<(u8, Seq<u8>)>::empty();
    emdf::lemma_oamd_size(objects, lfe);
    bits::lemma_two_values();
    bits::lemma_two_add(8, 8);
    assert(seq![(11u8, bits::pack(o))] =~= seq![(11u8, bits::pack(o))] + none);
    emdf::lemma_frame_oamd(data, o, none, prot);
    let c = bits::bits_of(data);
    bits::lemma_pack_of_bits(data);
    let at = emdf::oamd_start(c, emdf::PAYLOADS_BIT as int)->0;
    oamd::lemma_oamd_read(c, at, objects, lfe);
}

/// A frame has one number of objects in its OAMD and one in its JOC at most.
pub proof fn law_one_count(t: JocTables, s: Seq<bool>, a: int, b: int)
    ensures
        atmos::oamd_ok(s, a) && atmos::oamd_ok(s, b) ==> a == b,
        atmos::joc_ok(t, s, a) && atmos::joc_ok(t, s, b) ==> a == b,
{
}

/// The auxiliary data of a frame is one payload at most.
pub proof fn law_one_payload(s: Seq<bool>, a: Seq<u8>, b: Seq<u8>)
    requires
        atmos::aux_is(s, a),
        atmos::aux_is(s, b),
    ensures
        a == b,
{
}

/// The audio blocks of a frame are walked from behind its additional information, where it has some, and
/// from behind the flag otherwise.
pub proof fn law_frame_blocks(s: Seq<bool>, info: FrameInfo)
    ensures
        ({
            let p = bsi::addbsie_pos(s, info);
            let n = bits::field(s, p + 1, 6) + 1;
            &&& info.bsid == 16 && bits::bit(s, p) ==> atmos::frame_blocks(s, info)
                == eac3_audblk::frame_walk(s, info, p + 1 + 6 + 8 * n)
            &&& info.bsid == 16 && !bits::bit(s, p) ==> atmos::frame_blocks(s, info)
                == eac3_audblk::frame_walk(s, info, p + 1)
            &&& info.bsid != 16 ==> atmos::frame_blocks(s, info) is None
        }),
{
}

/// Where a skip field carries the EMDF, it is that of the third block: every block stands behind its skip
/// field, which is empty in all others.
pub proof fn law_third_block(s: Seq<bool>, info: FrameInfo, addbsi: Seq<u8>, emdf: Seq<u8>, b: int)
    requires
        1 <= addbsi.len() <= 64,
        atmos::carriage_of(s, info, addbsi.len() as int, emdf.len() as int) == Carriage::SkipField,
        0 <= b < 6,
    ensures
        ({
            let out = atmos::carried(s, info, addbsi, emdf);
            let points = eac3_audblk::frame_walk(s, info, bsi::addbsie_pos(s, info) + 1)->0.points;
            let start = inject::skip_start(
                s,
                info,
                points,
                8 * addbsi.len() as int,
                8 * emdf.len() as int,
                2,
                b,
            );
            let piece = inject::skip_field(bits::bits_of(emdf), b == 2) + s.subrange(
                points[b],
                inject::part_end(points, s.len() - 18, b),
            );
            0 <= start && start + piece.len() <= out.len() && out.subrange(start, start + piece.len())
                == piece
        }),
{
    assert(bits::bits_of(emdf).len() == 8 * emdf.len());
    assert(bits::bits_of(addbsi).len() == 8 * addbsi.len());
    inject::law_skip_roundtrip(s, info, info, addbsi, emdf, 2, 0, b);
}

/// The additional information announces the objects up to 16, and 16 from there on, behind the extension
/// flag; so numbers of objects up to 16 are told apart.
pub proof fn law_announced(a: int, b: int)
    requires
        0 <= a < b <= 16,
    ensures
        atmos::addbsi_for(a) != atmos::addbsi_for(b),
        atmos::addbsi_for(b + 1)[1] <= 16,
        atmos::addbsi_for(a) == seq![1u8, a as u8],
        forall|n: int| n >= 16 ==> #[trigger] atmos::addbsi_for(n) == seq![1u8, 16u8],
{
    assert(atmos::addbsi_for(a)[1] == a);
    assert(atmos::addbsi_for(b)[1] == b);
}

// ------------------------------------------------------------------ grafting

/// A container goes into the place of another one wherever it is no larger: the plan names that place,
/// the bytes there, and the new container.
pub proof fn law_graft_plan(core: Seq<bool>, mine: Seq<bool>, at: int, from: int, n: int, m: int)
    requires
        joc::first_emdf(core, 0) == Some(at),
        joc::first_emdf(mine, 0) == Some(from),
        ({
            let native = bits::pack(core.skip(at));
            let my = bits::pack(mine.skip(from));
            &&& native.len() >= n
            &&& my.len() >= m
            &&& sized(native.take(n))
            &&& sized(my.take(m))
            &&& atmos::has_joc(native.take(n))
        }),
        4 <= m,
        4 <= n,
    ensures
        m <= n ==> atmos::splice_plan(core, mine) == Some(
            (at, n, bits::pack(mine.skip(from)).take(m)),
        ),
        m > n ==> atmos::splice_plan(core, mine) is None,
{
    let native = bits::pack(core.skip(at));
    let my = bits::pack(mine.skip(from));
    assert(native.take(n)[2] == native[2] && native.take(n)[3] == native[3]);
    assert(my.take(m)[2] == my[2] && my.take(m)[3] == my[3]);
}

/// A planned graft is made where the frame has additional information in front of the container, and the
/// frame keeps its length.
pub proof fn law_graft_made(
    core: Seq<bool>,
    info: FrameInfo,
    mine: Seq<bool>,
    complexity: Option<u8>,
    at: int,
    n: int,
    my: Seq<u8>,
)
    requires
        atmos::splice_plan(core, mine) == Some((at, n, my)),
        info.bsid == 16,
        bits::bit(core, bsi::addbsie_pos(core, info)),
        bsi::addbsie_pos(core, info) + 7 + 8 + 8 <= at,
        at + 8 * n <= core.len(),
    ensures
        atmos::grafted(core, info, mine, complexity) is Some,
{
    assert(my.len() <= n);
}

/// A frame that announced objects announces, with another container and complexity index in it, as many as
/// that index says; and with another container alone, as many as it did.
pub proof fn law_graft_announces(
    s: Seq<bool>,
    info: FrameInfo,
    at: int,
    n: int,
    my: Seq<u8>,
    complexity: Option<u8>,
    k: int,
)
    requires
        0 <= n,
        inject::can_splice(s, info, at, n, my.len() as int),
        at + 8 * n <= s.len() - 16,
        bsi::addbsi_len(s, info) >= 2,
        bits::bit(s, bsi::addbsie_pos(s, info) + 14),
    ensures
        ({
            let whole = inject::spliced(s, info, at, n, bits::bits_of(my), complexity);
            let out = inject::sealed(whole.take(s.len() - 16));
            &&& complexity matches Some(cx) ==> (atmos::flag_ok(out, info, k) <==> k == cx)
            &&& complexity is None ==> atmos::flag_ok(out, info, k) == atmos::flag_ok(s, info, k)
        }),
{
    let whole = inject::spliced(s, info, at, n, bits::bits_of(my), complexity);
    let out = inject::sealed(whole.take(s.len() - 16));
    let p = bsi::addbsie_pos(s, info);
    inject::law_splice_keeps(s, info, at, n, my, complexity, 0);
    bsi::lemma_bsi_bounds(s, info);
    assert(bits::bit(out, p) == bits::bit(s, p));
    assert(bits::bit(out, p + 14) == bits::bit(s, p + 14));
    bsi::lemma_agree_field(s, out, 0, p + 15, p + 1, 6);
}

// ------------------------------------------------------------------ counts

/// Counters count up where each is as far from the first, modulo 1024, as it stands behind it.
pub proof fn law_counts_up(seqs: Seq<u16>)
    requires
        seqs.len() > 0,
        seqs[0] < 1024,
    ensures
        atmos::counts_up(seqs) <==> forall|k: int|
            0 <= k < seqs.len() ==> #[trigger] seqs[k] == (seqs[0] + k) % 1024,
{
    if atmos::counts_up(seqs) {
        assert forall|k: int| 0 <= k < seqs.len() implies #[trigger] seqs[k] == (seqs[0] + k) % 1024 by {
            lemma_counter(seqs, k);
        }
    } else {
        let i = choose|i: int|
            0 <= i && i + 1 < seqs.len() && #[trigger] seqs[i + 1] != (seqs[i] + 1) % 1024;
        if forall|k: int| 0 <= k < seqs.len() ==> #[trigger] seqs[k] == (seqs[0] + k) % 1024 {
            assert(seqs[i] == (seqs[0] + i) % 1024);
            assert(seqs[i + 1] == (seqs[0] + (i + 1)) % 1024);
            assert(false);
        }
    }
}

proof fn lemma_counter(seqs: Seq<u16>, k: int)
    requires
        0 <= k < seqs.len(),
        seqs[0] < 1024,
        atmos::counts_up(seqs),
    ensures
        seqs[k] == (seqs[0] + k) % 1024,
    decreases k,
{
    if k > 0 {
        lemma_counter(seqs, k - 1);
        assert(seqs[(k - 1) + 1] == (seqs[k - 1] + 1) % 1024);
    }
}

/// Frames of different stream type or substream id belong to different substreams, and substreams are
/// ordered by stream type and then by id. The number of a substream is its stream type in steps of 256,
/// and its id.
pub proof fn law_substreams(a: FrameInfo, b: FrameInfo)
    ensures
        atmos::substream_of(a) / 256 == a.strmtyp,
        atmos::substream_of(a) % 256 == a.substreamid,
        atmos::substream_of(a) == atmos::substream_of(b) <==> a.strmtyp == b.strmtyp && a.substreamid
            == b.substreamid,
        a.strmtyp < b.strmtyp ==> atmos::substream_of(a) < atmos::substream_of(b),
        a.strmtyp == b.strmtyp && a.substreamid < b.substreamid ==> atmos::substream_of(a)
            < atmos::substream_of(b),
{
}

/// Counts and bytes of frames add up over two runs of frames.
pub proof fn law_counts_add(a: Seq<FrameInfo>, b: Seq<FrameInfo>, n: nat)
    requires
        n <= b.len(),
    ensures
        atmos::independent_count(a + b, a.len() + n) == atmos::independent_count(a, a.len())
            + atmos::independent_count(b, n),
        atmos::bytes_in(a + b, a.len() + n) == atmos::bytes_in(a, a.len()) + atmos::bytes_in(b, n),
    decreases n,
{
    if n > 0 {
        law_counts_add(a, b, (n - 1) as nat);
        assert((a + b)[a.len() + n - 1] == b[n - 1]);
    } else {
        lemma_count_prefix(a, b, a.len());
    }
}

proof fn lemma_count_prefix(a: Seq<FrameInfo>, b: Seq<FrameInfo>, n: nat)
    requires
        n <= a.len(),
    ensures
        atmos::independent_count(a + b, n) == atmos::independent_count(a, n),
        atmos::bytes_in(a + b, n) == atmos::bytes_in(a, n),
    decreases n,
{
    if n > 0 {
        lemma_count_prefix(a, b, (n - 1) as nat);
        assert((a + b)[n - 1] == a[n - 1]);
    }
}

/// A single frame counts as independent where its stream type is 0, and has its own bytes.
pub proof fn law_one_frame(f: FrameInfo)
    ensures
        atmos::independent_count(seq![f], 1) == (if f.strmtyp == 0 {
            1nat
        } else {
            0
        }),
        atmos::bytes_in(seq![f], 1) == f.size,
{
    reveal_with_fuel(atmos::independent_count, 2);
    reveal_with_fuel(atmos::bytes_in, 2);
}

} // verus!
