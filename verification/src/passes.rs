//! Passes over whole streams: carrying metadata in every frame, moving it between streams, and adding
//! up what the frames hold.

use crate::atmos;
use crate::atmos::{
    atmos_addbsi, aux_matches, carriage, carry, check_aux_oamd, check_frame, frame_emdf,
    graft_core_frame, probe_joc, reference_metadata, signals, walk_blocks, Carriage,
};
use crate::bits;
use crate::bsi;
use crate::crc;
use crate::eac3;
use crate::eac3::{FrameInfo, MAX_FRAME_BYTES};
use crate::eac3_audblk;
use crate::emdf;
use crate::inject;
use crate::joc;
use crate::joc::{find_emdf_anywhere, HuffEnc, JocError, JocTables};
use crate::oamd;
use crate::oamd::ObjectCode;
use crate::protect::EmdfProtector;
use crate::stream;
use crate::stream::inject_stream;
use vstd::prelude::*;

verus! {

// ------------------------------------------------------------------ frames of a stream

/// The bits of frame `i`.
pub open spec fn frame_bits(data: Seq<u8>, frames: Seq<FrameInfo>, i: int) -> Seq<bool> {
    bits::bits_of(stream::frame_bytes_of(data, frames[i]))
}

/// Whether the frames end within the first `len` bytes.
pub fn frames_fit(frames: &Vec<FrameInfo>, len: usize) -> (b: bool)
    ensures
        b == stream::fit(frames@, len as int),
{
    let mut i: usize = 0;
    while i < frames.len()
        invariant
            i <= frames@.len(),
            forall|k: int| 0 <= k < i ==> (#[trigger] frames@[k]).offset + frames@[k].size <= len,
        decreases frames@.len() - i,
    {
        if frames[i].size > len || frames[i].offset > len - frames[i].size {
            assert(frames@[i as int].offset + frames@[i as int].size > len);
            return false;
        }
        i = i + 1;
    }
    true
}

/// The bytes of one frame.
fn frame_slice<'a>(data: &'a [u8], frames: &Vec<FrameInfo>, i: usize) -> (r: &'a [u8])
    requires
        i < frames@.len(),
        stream::fit(frames@, data@.len() as int),
    ensures
        r@ == stream::frame_bytes_of(data@, frames@[i as int]),
        r@.len() == frames@[i as int].size,
        bits::bits_of(r@) == frame_bits(data@, frames@, i as int),
{
    let f = &frames[i];
    assert(frames@[i as int].offset + frames@[i as int].size <= data@.len());
    assert(data.len() == data@.len());
    &data[f.offset..f.offset + f.size]
}

// ------------------------------------------------------------------ adding up

/// One for what holds, none for what does not.
pub open spec fn one(b: bool) -> nat {
    if b {
        1
    } else {
        0
    }
}

/// How many frames have each signal.
#[derive(Clone, Copy, PartialEq, Eq, Structural, Debug)]
pub struct SignalTotals {
    pub flag: usize,
    pub aux: usize,
    pub oamd: usize,
    pub joc: usize,
}

/// How many of the first `n` frames have the extension flag, auxiliary data, OAMD and JOC.
pub open spec fn signal_counts(data: Seq<u8>, frames: Seq<FrameInfo>, n: nat) -> (nat, nat, nat, nat)
    decreases n,
{
    if n == 0 {
        (0, 0, 0, 0)
    } else {
        let t = signal_counts(data, frames, (n - 1) as nat);
        let g = atmos::signals_of(frame_bits(data, frames, n - 1), frames[n - 1]);
        (t.0 + one(g.flag), t.1 + one(g.aux), t.2 + one(g.oamd), t.3 + one(g.joc))
    }
}

/// Adds up the signalling of all frames.
pub fn signal_totals(data: &[u8], frames: &Vec<FrameInfo>) -> (t: SignalTotals)
    requires
        oamd::addressable(data@.len() + 2),
        stream::fit(frames@, data@.len() as int),
    ensures
        (t.flag as nat, t.aux as nat, t.oamd as nat, t.joc as nat) == signal_counts(
            data@,
            frames@,
            frames@.len(),
        ),
{
    let mut t = SignalTotals { flag: 0, aux: 0, oamd: 0, joc: 0 };
    let mut i: usize = 0;
    while i < frames.len()
        invariant
            i <= frames.len(),
            oamd::addressable(data@.len() + 2),
            stream::fit(frames@, data@.len() as int),
            t.flag <= i && t.aux <= i && t.oamd <= i && t.joc <= i,
            (t.flag as nat, t.aux as nat, t.oamd as nat, t.joc as nat) == signal_counts(
                data@,
                frames@,
                i as nat,
            ),
        decreases frames@.len() - i,
    {
        let frame = frame_slice(data, frames, i);
        assert(frames@[i as int].offset + frames@[i as int].size <= data@.len());
        let g = signals(frame, &frames[i]);
        if g.flag {
            t.flag = t.flag + 1;
        }
        if g.aux {
            t.aux = t.aux + 1;
        }
        if g.oamd {
            t.oamd = t.oamd + 1;
        }
        if g.joc {
            t.joc = t.joc + 1;
        }
        i = i + 1;
    }
    t
}

/// How many frames have the metadata that they should have.
#[derive(Clone, Copy, PartialEq, Eq, Structural, Debug)]
pub struct CheckTotals {
    pub flag: usize,
    pub oamd: usize,
    pub joc: usize,
}

/// How many of the first `n` frames announce `objects` objects, have them in their OAMD, and have
/// `dynamic` objects in their JOC.
pub open spec fn check_counts(
    t: JocTables,
    data: Seq<u8>,
    frames: Seq<FrameInfo>,
    objects: int,
    dynamic: int,
    n: nat,
) -> (nat, nat, nat)
    decreases n,
{
    if n == 0 {
        (0, 0, 0)
    } else {
        let c = check_counts(t, data, frames, objects, dynamic, (n - 1) as nat);
        let s = frame_bits(data, frames, n - 1);
        (
            c.0 + one(atmos::flag_ok(s, frames[n - 1], objects)),
            c.1 + one(atmos::oamd_ok(s, objects)),
            c.2 + one(atmos::joc_ok(t, s, dynamic)),
        )
    }
}

/// Reads the metadata back from every frame.
pub fn check_totals(
    data: &[u8],
    frames: &Vec<FrameInfo>,
    object_count: usize,
    nobj: usize,
    tables: &JocTables,
) -> (c: CheckTotals)
    requires
        tables.ok(),
        oamd::addressable(data@.len() + 2),
        stream::fit(frames@, data@.len() as int),
    ensures
        (c.flag as nat, c.oamd as nat, c.joc as nat) == check_counts(
            *tables,
            data@,
            frames@,
            object_count as int,
            nobj as int,
            frames@.len(),
        ),
{
    let mut c = CheckTotals { flag: 0, oamd: 0, joc: 0 };
    let mut i: usize = 0;
    while i < frames.len()
        invariant
            i <= frames.len(),
            tables.ok(),
            oamd::addressable(data@.len() + 2),
            stream::fit(frames@, data@.len() as int),
            c.flag <= i && c.oamd <= i && c.joc <= i,
            (c.flag as nat, c.oamd as nat, c.joc as nat) == check_counts(
                *tables,
                data@,
                frames@,
                object_count as int,
                nobj as int,
                i as nat,
            ),
        decreases frames@.len() - i,
    {
        let frame = frame_slice(data, frames, i);
        assert(frames@[i as int].offset + frames@[i as int].size <= data@.len());
        let k = check_frame(frame, &frames[i], object_count, nobj, tables);
        if k.flag {
            c.flag = c.flag + 1;
        }
        if k.oamd {
            c.oamd = c.oamd + 1;
        }
        if k.joc {
            c.joc = c.joc + 1;
        }
        i = i + 1;
    }
    c
}

/// How many of the first `n` frames have OAMD in their auxiliary data, and how many of these have
/// `objects` objects and one bed.
pub open spec fn aux_counts(data: Seq<u8>, frames: Seq<FrameInfo>, objects: int, n: nat) -> (nat, nat)
    decreases n,
{
    if n == 0 {
        (0, 0)
    } else {
        let c = aux_counts(data, frames, objects, (n - 1) as nat);
        let k = atmos::aux_oamd_ok(frame_bits(data, frames, n - 1), objects);
        (c.0 + one(k is Some), c.1 + one(k == Some(true)))
    }
}

/// Reads the OAMD back from the auxiliary data of every frame: how many frames have some, and how many
/// have what they should.
pub fn aux_totals(data: &[u8], frames: &Vec<FrameInfo>, object_count: usize) -> (r: (usize, usize))
    requires
        oamd::addressable(data@.len() + 2),
        stream::fit(frames@, data@.len() as int),
    ensures
        (r.0 as nat, r.1 as nat) == aux_counts(data@, frames@, object_count as int, frames@.len()),
{
    let mut checked: usize = 0;
    let mut ok: usize = 0;
    let mut i: usize = 0;
    while i < frames.len()
        invariant
            i <= frames.len(),
            oamd::addressable(data@.len() + 2),
            stream::fit(frames@, data@.len() as int),
            checked <= i && ok <= i,
            (checked as nat, ok as nat) == aux_counts(data@, frames@, object_count as int, i as nat),
        decreases frames@.len() - i,
    {
        let frame = frame_slice(data, frames, i);
        assert(frames@[i as int].offset + frames@[i as int].size <= data@.len());
        match check_aux_oamd(frame, object_count) {
            Some(good) => {
                checked = checked + 1;
                if good {
                    ok = ok + 1;
                }
            },
            None => {},
        }
        i = i + 1;
    }
    (checked, ok)
}

/// The first frame whose auxiliary data is not `payload`.
pub fn first_unmarked(data: &[u8], frames: &Vec<FrameInfo>, payload: &[u8]) -> (r: Option<usize>)
    requires
        8 * data@.len() <= usize::MAX,
        8 * payload@.len() <= usize::MAX,
        stream::fit(frames@, data@.len() as int),
    ensures
        match r {
            Some(i) => i < frames@.len() && !atmos::aux_is(frame_bits(data@, frames@, i as int), payload@)
                && forall|k: int|
                0 <= k < i ==> atmos::aux_is(#[trigger] frame_bits(data@, frames@, k), payload@),
            None => forall|k: int|
                0 <= k < frames@.len() ==> atmos::aux_is(
                    #[trigger] frame_bits(data@, frames@, k),
                    payload@,
                ),
        },
{
    let mut i: usize = 0;
    while i < frames.len()
        invariant
            i <= frames@.len(),
            8 * data@.len() <= usize::MAX,
            8 * payload@.len() <= usize::MAX,
            stream::fit(frames@, data@.len() as int),
            forall|k: int|
                0 <= k < i ==> atmos::aux_is(#[trigger] frame_bits(data@, frames@, k), payload@),
        decreases frames@.len() - i,
    {
        let frame = frame_slice(data, frames, i);
        assert(frames@[i as int].offset + frames@[i as int].size <= data@.len());
        if !aux_matches(frame, payload) {
            return Some(i);
        }
        i = i + 1;
    }
    None
}

/// How the walks over the audio blocks of the frames end.
#[derive(Clone, Copy, PartialEq, Eq, Structural, Debug)]
pub struct WalkTotals {
    /// At the tail.
    pub ok: usize,
    /// Somewhere else.
    pub mismatch: usize,
    /// Not at all.
    pub unsupported: usize,
}

/// How many of the first `n` walks end at the tail, somewhere else, or not at all.
pub open spec fn walk_counts(data: Seq<u8>, frames: Seq<FrameInfo>, n: nat) -> (nat, nat, nat)
    decreases n,
{
    if n == 0 {
        (0, 0, 0)
    } else {
        let c = walk_counts(data, frames, (n - 1) as nat);
        match atmos::frame_blocks(frame_bits(data, frames, n - 1), frames[n - 1]) {
            None => (c.0, c.1, c.2 + 1),
            Some(w) => {
                let tail = 8 * frames[n - 1].size - inject::TAIL_BITS;
                (c.0 + one(w.pos == tail), c.1 + one(w.pos != tail), c.2)
            },
        }
    }
}

/// Walks the audio blocks of every frame: each walk should end exactly at the frame's tail.
pub fn walk_totals(data: &[u8], frames: &Vec<FrameInfo>) -> (t: WalkTotals)
    requires
        stream::fit(frames@, data@.len() as int),
    ensures
        (t.ok as nat, t.mismatch as nat, t.unsupported as nat) == walk_counts(
            data@,
            frames@,
            frames@.len(),
        ),
{
    let mut t = WalkTotals { ok: 0, mismatch: 0, unsupported: 0 };
    let mut i: usize = 0;
    while i < frames.len()
        invariant
            i <= frames.len(),
            stream::fit(frames@, data@.len() as int),
            t.ok <= i && t.mismatch <= i && t.unsupported <= i,
            (t.ok as nat, t.mismatch as nat, t.unsupported as nat) == walk_counts(
                data@,
                frames@,
                i as nat,
            ),
        decreases frames@.len() - i,
    {
        let frame = frame_slice(data, frames, i);
        assert(frames@[i as int].offset + frames@[i as int].size <= data@.len());
        match walk_blocks(frame, &frames[i]) {
            None => {
                t.unsupported = t.unsupported + 1;
            },
            Some((_, end)) => {
                // The tail is 18 bits long.
                if (end + inject::TAIL_BITS) % 8 == 0 && (end + inject::TAIL_BITS) / 8 == frames[i].size {
                    t.ok = t.ok + 1;
                } else {
                    t.mismatch = t.mismatch + 1;
                }
            },
        }
        i = i + 1;
    }
    t
}

// ------------------------------------------------------------------ carrying metadata in every frame

/// The metadata of each frame: its EMDF and its additional information. The JOC counter
/// counts the frames, modulo 1024.
pub fn metadata_items<P: EmdfProtector>(
    objects: &Vec<Vec<ObjectCode>>,
    codes: &Vec<Vec<[i32; 5]>>,
    enc: &HuffEnc,
    prot: &P,
) -> (items: Vec<(Vec<u8>, Vec<u8>)>)
    requires
        objects@.len() == codes@.len(),
        enc.wf(),
        joc::covers_fine(enc.tree()),
        forall|i: int|
            0 <= i < objects@.len() ==> oamd::element_len((#[trigger] objects@[i])@.len() as int, true)
                <= 4368,
        forall|i: int|
            0 <= i < codes@.len() ==> 1 <= (#[trigger] codes@[i])@.len() <= 64 && joc::codes_ok(
                codes@[i]@,
            ),
    ensures
        items@.len() == objects@.len(),
        forall|i: int|
            0 <= i < items@.len() ==> bits::bits_of((#[trigger] items@[i]).0@) == emdf::container_bits(
                atmos::atmos_payloads(
                    bits::pack(oamd::oamd_bits(objects@[i]@, true)),
                    bits::pack(joc::joc_bits(enc.tree(), codes@[i]@, (i % 1024) as u16)),
                ),
                *prot,
            ) && items@[i].1@ == atmos::addbsi_for(objects@[i]@.len() as int + 1),
        items_of(items@, objects@, enc.tree(), codes@, *prot),
{
    let mut items: Vec<(Vec<u8>, Vec<u8>)> = Vec::new();
    let mut i: usize = 0;
    while i < objects.len()
        invariant
            i <= objects@.len(),
            objects@.len() == codes@.len(),
            enc.wf(),
            joc::covers_fine(enc.tree()),
            forall|k: int|
                0 <= k < objects@.len() ==> oamd::element_len(
                    (#[trigger] objects@[k])@.len() as int,
                    true,
                ) <= 4368,
            forall|k: int|
                0 <= k < codes@.len() ==> 1 <= (#[trigger] codes@[k])@.len() <= 64 && joc::codes_ok(
                    codes@[k]@,
                ),
            items@.len() == i,
            forall|k: int|
                0 <= k < i ==> bits::bits_of((#[trigger] items@[k]).0@) == emdf::container_bits(
                    atmos::atmos_payloads(
                        bits::pack(oamd::oamd_bits(objects@[k]@, true)),
                        bits::pack(joc::joc_bits(enc.tree(), codes@[k]@, (k % 1024) as u16)),
                    ),
                    *prot,
                ) && items@[k].1@ == atmos::addbsi_for(objects@[k]@.len() as int + 1),
        decreases objects@.len() - i,
    {
        assert(oamd::element_len(objects@[i as int]@.len() as int, true) <= 4368);
        let seq: u16 = (i % 1024) as u16;
        let emdf = frame_emdf(&objects[i], &codes[i], seq, enc, prot);
        let addbsi = atmos_addbsi(objects[i].len() + 1);
        items.push((emdf, addbsi));
        i = i + 1;
    }
    items
}

/// The item of frame `i`: the items are used in turn.
pub open spec fn item_of(items: Seq<(Vec<u8>, Vec<u8>)>, i: int) -> (Seq<u8>, Seq<u8>) {
    (items[i % (items.len() as int)].0@, items[i % (items.len() as int)].1@)
}

/// Frame `i` can carry its item.
pub open spec fn item_fits(
    data: Seq<u8>,
    frames: Seq<FrameInfo>,
    items: Seq<(Vec<u8>, Vec<u8>)>,
    i: int,
) -> bool {
    item_carriage(data, frames, items, i) != Carriage::Impossible
}

/// How frame `i` carries its item.
pub open spec fn item_carriage(
    data: Seq<u8>,
    frames: Seq<FrameInfo>,
    items: Seq<(Vec<u8>, Vec<u8>)>,
    i: int,
) -> Carriage {
    atmos::carriage_of(
        frame_bits(data, frames, i),
        frames[i],
        item_of(items, i).1.len() as int,
        item_of(items, i).0.len() as int,
    )
}

/// Frame `i` with its item in it.
pub open spec fn carried_frame(
    data: Seq<u8>,
    frames: Seq<FrameInfo>,
    items: Seq<(Vec<u8>, Vec<u8>)>,
    i: int,
) -> Seq<u8> {
    bits::pack(
        atmos::carried(
            frame_bits(data, frames, i),
            frames[i],
            item_of(items, i).1,
            item_of(items, i).0,
        ),
    )
}

/// The first `n` of some pieces, one behind the other.
pub open spec fn joined(pieces: Seq<Seq<u8>>, n: nat) -> Seq<u8>
    decreases n,
{
    if n == 0 {
        Seq::empty()
    } else {
        joined(pieces, (n - 1) as nat) + pieces[n - 1]
    }
}

/// All frames with their items in them.
pub open spec fn carried_frames(
    data: Seq<u8>,
    frames: Seq<FrameInfo>,
    items: Seq<(Vec<u8>, Vec<u8>)>,
) -> Seq<Seq<u8>> {
    Seq::new(frames.len(), |i: int| carried_frame(data, frames, items, i))
}

/// How many of the first `n` frames carry their items in a skip field.
pub open spec fn skip_count(
    data: Seq<u8>,
    frames: Seq<FrameInfo>,
    items: Seq<(Vec<u8>, Vec<u8>)>,
    n: nat,
) -> nat
    decreases n,
{
    if n == 0 {
        0
    } else {
        skip_count(data, frames, items, (n - 1) as nat) + one(
            item_carriage(data, frames, items, n - 1) == Carriage::SkipField,
        )
    }
}

/// What is carried is small: a frame has at most 4096 bytes.
proof fn lemma_carriage_small(s: Seq<bool>, info: FrameInfo, addbsi: int, emdf: int)
    requires
        0 <= addbsi,
        0 <= emdf,
        atmos::carriage_of(s, info, addbsi, emdf) != Carriage::Impossible,
    ensures
        s.len() <= 8 * MAX_FRAME_BYTES,
        1 <= addbsi <= MAX_FRAME_BYTES,
        emdf <= atmos::MAX_SKIP_BYTES,
{
}

/// The first frame that cannot carry its item.
pub fn first_uncarried(
    data: &[u8],
    frames: &Vec<FrameInfo>,
    items: &Vec<(Vec<u8>, Vec<u8>)>,
) -> (r: Option<usize>)
    requires
        oamd::addressable(data@.len() + 2),
        stream::fit(frames@, data@.len() as int),
        items@.len() >= 1,
    ensures
        match r {
            Some(i) => i < frames@.len() && !item_fits(data@, frames@, items@, i as int) && forall|k: int|
                0 <= k < i ==> #[trigger] item_fits(data@, frames@, items@, k),
            None => forall|k: int|
                0 <= k < frames@.len() ==> #[trigger] item_fits(data@, frames@, items@, k),
        },
{
    let mut i: usize = 0;
    while i < frames.len()
        invariant
            i <= frames@.len(),
            oamd::addressable(data@.len() + 2),
            stream::fit(frames@, data@.len() as int),
            items@.len() >= 1,
            forall|k: int| 0 <= k < i ==> #[trigger] item_fits(data@, frames@, items@, k),
        decreases frames@.len() - i,
    {
        let frame = frame_slice(data, frames, i);
        assert(frames@[i as int].offset + frames@[i as int].size <= data@.len());
        let j = i % items.len();
        let addbsi_len = items[j].1.len();
        let emdf_len = items[j].0.len();
        proof {
            if item_fits(data@, frames@, items@, i as int) {
                lemma_carriage_small(
                    frame_bits(data@, frames@, i as int),
                    frames@[i as int],
                    addbsi_len as int,
                    emdf_len as int,
                );
            }
        }
        if addbsi_len > MAX_FRAME_BYTES {
            return Some(i);
        }
        match carriage(frame, &frames[i], addbsi_len, emdf_len) {
            Carriage::Impossible => {
                return Some(i);
            },
            _ => {},
        }
        i = i + 1;
    }
    None
}

/// Carries an item in every frame, the items in turn. Only the frames are kept, not what stands
/// between them. Gives the new stream, and how many frames carry their items in a skip field.
pub fn carry_stream(
    data: &[u8],
    frames: &Vec<FrameInfo>,
    items: &Vec<(Vec<u8>, Vec<u8>)>,
) -> (r: (Vec<u8>, usize))
    requires
        stream::fit(frames@, data@.len() as int),
        items@.len() >= 1,
        forall|i: int| 0 <= i < frames@.len() ==> #[trigger] item_fits(data@, frames@, items@, i),
    ensures
        r.0@ == joined(carried_frames(data@, frames@, items@), frames@.len()),
        r.1 == skip_count(data@, frames@, items@, frames@.len()),
{
    let ghost pieces = carried_frames(data@, frames@, items@);
    let mut out: Vec<u8> = Vec::new();
    let mut count: usize = 0;
    let mut i: usize = 0;
    while i < frames.len()
        invariant
            i <= frames.len(),
            stream::fit(frames@, data@.len() as int),
            items@.len() >= 1,
            forall|k: int| 0 <= k < frames@.len() ==> #[trigger] item_fits(data@, frames@, items@, k),
            pieces == carried_frames(data@, frames@, items@),
            out@ == joined(pieces, i as nat),
            count <= i,
            count == skip_count(data@, frames@, items@, i as nat),
        decreases frames@.len() - i,
    {
        let frame = frame_slice(data, frames, i);
        let j = i % items.len();
        proof {
            assert(item_fits(data@, frames@, items@, i as int));
            lemma_carriage_small(
                frame_bits(data@, frames@, i as int),
                frames@[i as int],
                items@[j as int].1@.len() as int,
                items@[j as int].0@.len() as int,
            );
            assert(bits::bits_of(frame@).len() == 8 * frame@.len());
        }
        let (piece, skip) = carry(frame, &frames[i], &items[j].1, &items[j].0);
        proof {
            bits::lemma_pack_of_bits(piece@);
            assert(piece@ == pieces[i as int]);
        }
        out.extend_from_slice(&piece);
        if skip {
            count = count + 1;
        }
        i = i + 1;
        assert(out@ == joined(pieces, i as nat));
    }
    (out, count)
}

// ------------------------------------------------------------------ payloads in the auxiliary data

/// The payload of frame `i`: the payloads are used in turn.
pub open spec fn payload_of(payloads: Seq<Vec<u8>>, i: int) -> Seq<u8> {
    payloads[i % (payloads.len() as int)]@
}

/// Frame `i` has room for its payload.
pub open spec fn payload_fits(frames: Seq<FrameInfo>, payloads: Seq<Vec<u8>>, i: int) -> bool {
    payload_of(payloads, i).len() == 0 || {
        &&& frames[i].size >= 6
        &&& inject::frame_bytes(
            inject::aux_need(8 * frames[i].size as int, 8 * payload_of(payloads, i).len() as int),
        ) <= MAX_FRAME_BYTES
    }
}

/// The first frame that has no room for its payload.
pub fn first_overfull(frames: &Vec<FrameInfo>, payloads: &Vec<Vec<u8>>) -> (r: Option<usize>)
    requires
        payloads@.len() >= 1,
    ensures
        match r {
            Some(i) => i < frames@.len() && !payload_fits(frames@, payloads@, i as int) && forall|k: int|
                0 <= k < i ==> #[trigger] payload_fits(frames@, payloads@, k),
            None => forall|k: int|
                0 <= k < frames@.len() ==> #[trigger] payload_fits(frames@, payloads@, k),
        },
{
    let mut i: usize = 0;
    while i < frames.len()
        invariant
            i <= frames@.len(),
            payloads@.len() >= 1,
            forall|k: int| 0 <= k < i ==> #[trigger] payload_fits(frames@, payloads@, k),
        decreases frames@.len() - i,
    {
        let n = payloads[i % payloads.len()].len();
        let size = frames[i].size;
        if n > 0 {
            if size < 6 || size > MAX_FRAME_BYTES || n > MAX_FRAME_BYTES {
                assert(!payload_fits(frames@, payloads@, i as int));
                return Some(i);
            }
            let need = size * 8 - inject::TAIL_BITS + n * 8 + 32;
            if 2 * ((need + 15) / 16) > MAX_FRAME_BYTES {
                assert(!payload_fits(frames@, payloads@, i as int));
                return Some(i);
            }
        }
        assert(payload_fits(frames@, payloads@, i as int));
        i = i + 1;
    }
    None
}

/// Frame `i` of the stream with its payload in its auxiliary data.
pub open spec fn marked_frame(data: Seq<u8>, payloads: Seq<Vec<u8>>, i: int) -> Seq<u8> {
    let frame = stream::frame_bytes_of(data, stream::complete_frames(data)[i]);
    let payload = payload_of(payloads, i);
    if payload.len() == 0 {
        frame
    } else {
        bits::pack(inject::sealed(inject::aux_frame(bits::bits_of(frame), bits::bits_of(payload))))
    }
}

/// All complete frames of the stream with their payloads.
pub open spec fn marked_frames(data: Seq<u8>, payloads: Seq<Vec<u8>>) -> Seq<Seq<u8>> {
    Seq::new(stream::complete_frames(data).len(), |i: int| marked_frame(data, payloads, i))
}

/// There are no more frames than bytes.
proof fn lemma_frame_count(data: Seq<u8>, off: int)
    requires
        0 <= off,
    ensures
        eac3::frames_from(data, off).len() <= if off < data.len() {
            data.len() - off
        } else {
            0
        },
    decreases
        (if off < data.len() {
            data.len() - off
        } else {
            0
        }),
{
    if off + 6 <= data.len() {
        if eac3::sync_at(data, off) {
            eac3::lemma_header_size(bits::bits_of(data.subrange(off, off + 6)), off);
            lemma_frame_count(data, off + eac3::header_at(data, off).size);
        } else {
            eac3::lemma_next_sync(data, off + 1);
            if let Some(p) = eac3::next_sync(data, off + 1) {
                lemma_frame_count(data, p);
            }
        }
    }
}

/// Injects a payload into the auxiliary data of every frame, the payloads in turn. What stands between
/// the frames is kept, and so is a last frame that is cut off.
pub fn inject_payloads(data: &[u8], payloads: &Vec<Vec<u8>>) -> (out: Vec<u8>)
    requires
        payloads@.len() >= 1,
        forall|i: int|
            0 <= i < stream::complete_frames(data@).len() ==> #[trigger] payload_fits(
                stream::complete_frames(data@),
                payloads@,
                i,
            ),
    ensures
        out@ == stream::rebuilt(data@, stream::complete_frames(data@), marked_frames(data@, payloads@)),
{
    let ghost fs = stream::complete_frames(data@);
    let payload_for = |f: &FrameInfo, i: usize| -> (r: Option<(Vec<u8>, usize)>)
        requires
            payloads@.len() >= 1,
            payloads@[i as int % payloads@.len() as int]@.len() <= MAX_FRAME_BYTES,
        ensures
            r matches Some((p, n)) && p@ == payloads@[i as int % payloads@.len() as int]@ && n == 8
                * p@.len(),
        {
            let p = copy_of(&payloads[i % payloads.len()]);
            let n = p.len() * 8;
            Some((p, n))
        };
    proof {
        assert(data@.len() == data.len());
        lemma_frame_count(data@, 0);
        stream::law_streamed_frames(data@);
        assert forall|i: int| 0 <= i < fs.len() implies call_requires(
            payload_for,
            (&#[trigger] fs[i], i as usize),
        ) by {
            assert(payload_fits(fs, payloads@, i));
        }
        assert forall|i: int, r: Option<(Vec<u8>, usize)>|
            0 <= i < fs.len() && #[trigger] call_ensures(payload_for, (&fs[i], i as usize), r) implies stream::outcome_ok(
            fs[i],
            r,
        ) by {
            assert(payload_fits(fs, payloads@, i));
        }
    }
    let out = inject_stream(data, payload_for);
    proof {
        let outcomes = choose|outcomes: Seq<Option<(Vec<u8>, usize)>>|
            stream::payloads_from(payload_for, data@, outcomes) && #[trigger] stream::injected_stream(
                data@,
                outcomes,
            ) == out@;
        let made = Seq::new(
            outcomes.len(),
            |i: int| stream::injected(stream::frame_bytes_of(data@, stream::complete_frames(data@)[i]), outcomes[i]),
        );
        let marked = marked_frames(data@, payloads@);
        assert forall|i: int| 0 <= i < outcomes.len() implies #[trigger] made[i] == marked[i] by {
            let o = outcomes[i];
            assert(call_ensures(payload_for, (&fs[i], i as usize), o));
            let p = (o->0).0;
            assert(bits::bits_of(p@).take(8 * p@.len() as int) =~= bits::bits_of(p@));
        }
        assert(made =~= marked);
    }
    out
}

fn copy_of(v: &Vec<u8>) -> (r: Vec<u8>)
    ensures
        r@ == v@,
{
    let mut r: Vec<u8> = Vec::new();
    r.extend_from_slice(v);
    assert(r@ =~= v@);
    r
}

// ------------------------------------------------------------------ metadata of other streams

/// The usable containers of the first `n` frames, with their additional information.
pub open spec fn references_upto(data: Seq<u8>, frames: Seq<FrameInfo>, n: nat) -> Seq<
    (Seq<u8>, Seq<u8>),
>
    decreases n,
{
    if n == 0 {
        Seq::empty()
    } else {
        let before = references_upto(data, frames, (n - 1) as nat);
        match atmos::reference_of(frame_bits(data, frames, n - 1), frames[n - 1]) {
            Some(r) => before.push(r),
            None => before,
        }
    }
}

/// The usable containers of a stream, each with its frame's additional information.
pub fn references(data: &[u8], frames: &Vec<FrameInfo>) -> (items: Vec<(Vec<u8>, Vec<u8>)>)
    requires
        oamd::addressable(data@.len() + 2),
        stream::fit(frames@, data@.len() as int),
    ensures
        items@.len() == references_upto(data@, frames@, frames@.len()).len(),
        forall|i: int|
            0 <= i < items@.len() ==> ((#[trigger] items@[i]).0@, items@[i].1@) == references_upto(
                data@,
                frames@,
                frames@.len(),
            )[i],
{
    let mut items: Vec<(Vec<u8>, Vec<u8>)> = Vec::new();
    let mut i: usize = 0;
    while i < frames.len()
        invariant
            i <= frames@.len(),
            oamd::addressable(data@.len() + 2),
            stream::fit(frames@, data@.len() as int),
            items@.len() == references_upto(data@, frames@, i as nat).len(),
            forall|k: int|
                0 <= k < items@.len() ==> ((#[trigger] items@[k]).0@, items@[k].1@) == references_upto(
                    data@,
                    frames@,
                    i as nat,
                )[k],
        decreases frames@.len() - i,
    {
        let frame = frame_slice(data, frames, i);
        assert(frames@[i as int].offset + frames@[i as int].size <= data@.len());
        match reference_metadata(frame, &frames[i]) {
            Some(r) => {
                items.push(r);
            },
            None => {},
        }
        i = i + 1;
    }
    items
}

/// The first usable container is found among more frames too.
proof fn lemma_first_reference(data: Seq<u8>, frames: Seq<FrameInfo>, m: nat, n: nat)
    requires
        m <= n,
        references_upto(data, frames, m).len() > 0,
    ensures
        references_upto(data, frames, n).len() > 0,
        references_upto(data, frames, n)[0] == references_upto(data, frames, m)[0],
    decreases n,
{
    if m < n {
        lemma_first_reference(data, frames, m, (n - 1) as nat);
    }
}

/// The first usable container of a stream, with its frame's additional information.
pub fn first_reference(data: &[u8], frames: &Vec<FrameInfo>) -> (r: Option<(Vec<u8>, Vec<u8>)>)
    requires
        oamd::addressable(data@.len() + 2),
        stream::fit(frames@, data@.len() as int),
    ensures
        ({
            let all = references_upto(data@, frames@, frames@.len());
            match r {
                Some(item) => all.len() > 0 && (item.0@, item.1@) == all[0],
                None => all.len() == 0,
            }
        }),
{
    let mut i: usize = 0;
    while i < frames.len()
        invariant
            i <= frames@.len(),
            oamd::addressable(data@.len() + 2),
            stream::fit(frames@, data@.len() as int),
            references_upto(data@, frames@, i as nat).len() == 0,
        decreases frames@.len() - i,
    {
        let frame = frame_slice(data, frames, i);
        assert(frames@[i as int].offset + frames@[i as int].size <= data@.len());
        match reference_metadata(frame, &frames[i]) {
            Some(item) => {
                proof {
                    assert(references_upto(data@, frames@, (i + 1) as nat)[0] == (item.0@, item.1@));
                    lemma_first_reference(data@, frames@, (i + 1) as nat, frames@.len());
                }
                return Some(item);
            },
            None => {},
        }
        i = i + 1;
    }
    None
}

/// The first `n` frames among the first `k` in which a container is found.
pub open spec fn containers_upto(data: Seq<u8>, frames: Seq<FrameInfo>, n: nat, k: nat) -> Seq<usize>
    decreases k,
{
    if k == 0 {
        Seq::empty()
    } else {
        let before = containers_upto(data, frames, n, (k - 1) as nat);
        if before.len() < n && atmos::emdf_in(frame_bits(data, frames, k - 1)) is Some {
            before.push((k - 1) as usize)
        } else {
            before
        }
    }
}

/// Once `n` frames are found, no more are taken.
proof fn lemma_containers_full(data: Seq<u8>, frames: Seq<FrameInfo>, n: nat, j: nat, k: nat)
    requires
        j <= k,
        containers_upto(data, frames, n, j).len() >= n,
    ensures
        containers_upto(data, frames, n, k) == containers_upto(data, frames, n, j),
    decreases k,
{
    if j < k {
        lemma_containers_full(data, frames, n, j, (k - 1) as nat);
    }
}

/// The indices of the first `n` frames in which a container is found.
pub fn first_containers(data: &[u8], frames: &Vec<FrameInfo>, n: usize) -> (r: Vec<usize>)
    requires
        oamd::addressable(data@.len() + 2),
        stream::fit(frames@, data@.len() as int),
    ensures
        r@ == containers_upto(data@, frames@, n as nat, frames@.len()),
{
    let mut r: Vec<usize> = Vec::new();
    let mut i: usize = 0;
    while i < frames.len() && r.len() < n
        invariant
            i <= frames@.len(),
            oamd::addressable(data@.len() + 2),
            stream::fit(frames@, data@.len() as int),
            r@ == containers_upto(data@, frames@, n as nat, i as nat),
        decreases frames@.len() - i,
    {
        let frame = frame_slice(data, frames, i);
        assert(frames@[i as int].offset + frames@[i as int].size <= data@.len());
        if find_emdf_anywhere(frame).is_some() {
            r.push(i);
        }
        i = i + 1;
    }
    proof {
        if i < frames@.len() {
            lemma_containers_full(data@, frames@, n as nat, i as nat, frames@.len());
        }
    }
    r
}

/// Frame `i` of the core stream with the EMDF of frame `i` of the other stream in place of its own.
/// None if that cannot be done.
pub open spec fn graft_of(
    core: Seq<u8>,
    frames: Seq<FrameInfo>,
    mine: Seq<u8>,
    my_frames: Seq<FrameInfo>,
    complexity: Option<u8>,
    i: int,
) -> Option<Seq<bool>> {
    if i < my_frames.len() {
        atmos::grafted(frame_bits(core, frames, i), frames[i], frame_bits(mine, my_frames, i), complexity)
    } else {
        None
    }
}

/// The frames of the core stream, each with the other stream's EMDF where that can be done.
pub open spec fn grafted_frames(
    core: Seq<u8>,
    frames: Seq<FrameInfo>,
    mine: Seq<u8>,
    my_frames: Seq<FrameInfo>,
    complexity: Option<u8>,
) -> Seq<Seq<u8>> {
    Seq::new(
        frames.len(),
        |i: int|
            match graft_of(core, frames, mine, my_frames, complexity, i) {
                Some(b) => bits::pack(b),
                None => stream::frame_bytes_of(core, frames[i]),
            },
    )
}

/// How many of the first `n` frames of the core stream get another EMDF.
pub open spec fn graft_count(
    core: Seq<u8>,
    frames: Seq<FrameInfo>,
    mine: Seq<u8>,
    my_frames: Seq<FrameInfo>,
    complexity: Option<u8>,
    n: nat,
) -> nat
    decreases n,
{
    if n == 0 {
        0
    } else {
        graft_count(core, frames, mine, my_frames, complexity, (n - 1) as nat) + one(
            graft_of(core, frames, mine, my_frames, complexity, n - 1) is Some,
        )
    }
}

/// Splices the EMDF of each frame of `mine` into the frame of `core` with the same index, in place of
/// its native one; where that cannot be done, the frame of `core` stays as it is. Gives the new stream,
/// and how many frames got another EMDF.
pub fn graft_core_stream(
    core: &[u8],
    frames: &Vec<FrameInfo>,
    mine: &[u8],
    my_frames: &Vec<FrameInfo>,
    complexity: Option<u8>,
) -> (r: (Vec<u8>, usize))
    requires
        oamd::addressable(core@.len() + 2),
        oamd::addressable(mine@.len() + 2),
        stream::fit(frames@, core@.len() as int),
        stream::fit(my_frames@, mine@.len() as int),
    ensures
        r.0@ == joined(
            grafted_frames(core@, frames@, mine@, my_frames@, complexity),
            frames@.len(),
        ),
        r.1 == graft_count(core@, frames@, mine@, my_frames@, complexity, frames@.len()),
{
    let ghost pieces = grafted_frames(core@, frames@, mine@, my_frames@, complexity);
    let mut out: Vec<u8> = Vec::new();
    let mut count: usize = 0;
    let mut i: usize = 0;
    while i < frames.len()
        invariant
            i <= frames.len(),
            oamd::addressable(core@.len() + 2),
            oamd::addressable(mine@.len() + 2),
            stream::fit(frames@, core@.len() as int),
            stream::fit(my_frames@, mine@.len() as int),
            pieces == grafted_frames(core@, frames@, mine@, my_frames@, complexity),
            out@ == joined(pieces, i as nat),
            count <= i,
            count == graft_count(core@, frames@, mine@, my_frames@, complexity, i as nat),
        decreases frames@.len() - i,
    {
        let frame = frame_slice(core, frames, i);
        assert(frames@[i as int].offset + frames@[i as int].size <= core@.len());
        let made: Option<Vec<u8>> = if i < my_frames.len() {
            let my = frame_slice(mine, my_frames, i);
            assert(my_frames@[i as int].offset + my_frames@[i as int].size <= mine@.len());
            graft_core_frame(frame, &frames[i], my, complexity)
        } else {
            None
        };
        match made {
            Some(piece) => {
                proof {
                    bits::lemma_pack_of_bits(piece@);
                    assert(piece@ == pieces[i as int]);
                }
                out.extend_from_slice(&piece);
                count = count + 1;
            },
            None => {
                assert(frame@ == pieces[i as int]);
                out.extend_from_slice(frame);
            },
        }
        i = i + 1;
        assert(out@ == joined(pieces, i as nat));
    }
    (out, count)
}

// ------------------------------------------------------------------ JOC of a stream

/// Most errors that a summary lists.
pub const MAX_ERRORS: usize = 5;

/// What the JOC payloads of a stream are.
pub struct JocTotals {
    /// Frames with a container.
    pub emdf: usize,
    /// The sequence counters of the payloads that were decoded.
    pub seqs: Vec<u16>,
    /// The first errors, each with its frame.
    pub errors: Vec<(usize, JocError)>,
}

/// The JOC of the frame `s`: None without a container; without a payload in it, nothing; else what
/// decoding it comes to.
pub open spec fn joc_of(t: JocTables, s: Seq<bool>) -> Option<Option<Result<joc::FrameView, JocError>>> {
    match atmos::emdf_in(s) {
        None => None,
        Some((_, rest)) => match atmos::payloads_in(rest) {
            None => None,
            Some(ps) => match atmos::first_payload(ps, emdf::PAYLOAD_JOC) {
                None => Some(None),
                Some(j) => Some(Some(joc::frame_at(t, bits::bits_of(j)))),
            },
        },
    }
}

/// How many of the first `n` frames have a container, the sequence counters of those whose JOC can be
/// decoded, and the first errors of the others.
pub open spec fn joc_sums(t: JocTables, data: Seq<u8>, frames: Seq<FrameInfo>, n: nat) -> (
    nat,
    Seq<u16>,
    Seq<(usize, JocError)>,
)
    decreases n,
{
    if n == 0 {
        (0, Seq::empty(), Seq::empty())
    } else {
        let c = joc_sums(t, data, frames, (n - 1) as nat);
        match joc_of(t, frame_bits(data, frames, n - 1)) {
            None => c,
            Some(None) => (c.0 + 1, c.1, c.2),
            Some(Some(Ok(f))) => (c.0 + 1, c.1.push(f.seq), c.2),
            Some(Some(Err(e))) => (
                c.0 + 1,
                c.1,
                if c.2.len() < MAX_ERRORS {
                    c.2.push(((n - 1) as usize, e))
                } else {
                    c.2
                },
            ),
        }
    }
}

/// Decodes the JOC of every frame.
pub fn joc_totals(data: &[u8], frames: &Vec<FrameInfo>, tables: &JocTables) -> (t: JocTotals)
    requires
        tables.ok(),
        oamd::addressable(data@.len() + 2),
        stream::fit(frames@, data@.len() as int),
    ensures
        (t.emdf as nat, t.seqs@, t.errors@) == joc_sums(*tables, data@, frames@, frames@.len()),
{
    let mut emdf: usize = 0;
    let mut seqs: Vec<u16> = Vec::new();
    let mut errors: Vec<(usize, JocError)> = Vec::new();
    let mut i: usize = 0;
    while i < frames.len()
        invariant
            i <= frames.len(),
            tables.ok(),
            oamd::addressable(data@.len() + 2),
            stream::fit(frames@, data@.len() as int),
            emdf <= i,
            (emdf as nat, seqs@, errors@) == joc_sums(*tables, data@, frames@, i as nat),
        decreases frames@.len() - i,
    {
        let frame = frame_slice(data, frames, i);
        assert(frames@[i as int].offset + frames@[i as int].size <= data@.len());
        match probe_joc(frame, tables) {
            None => {},
            Some(p) => {
                emdf = emdf + 1;
                match p.joc {
                    None => {},
                    Some((Ok(f), _)) => {
                        seqs.push(f.seq);
                    },
                    Some((Err(e), _)) => {
                        if errors.len() < MAX_ERRORS {
                            errors.push((i, e));
                        }
                    },
                }
            },
        }
        i = i + 1;
    }
    JocTotals { emdf, seqs, errors }
}

// ------------------------------------------------------------------ what the passes keep

/// Where a piece stands among joined pieces.
proof fn lemma_joined_place(pieces: Seq<Seq<u8>>, k: nat, m: nat)
    requires
        k < m <= pieces.len(),
    ensures
        joined(pieces, k + 1).len() == joined(pieces, k).len() + pieces[k as int].len(),
        joined(pieces, k + 1).len() <= joined(pieces, m).len(),
        joined(pieces, m).subrange(
            joined(pieces, k).len() as int,
            joined(pieces, k + 1).len() as int,
        ) == pieces[k as int],
    decreases m,
{
    let a = joined(pieces, k).len() as int;
    let b = joined(pieces, k + 1).len() as int;
    let whole = joined(pieces, m);
    if k + 1 < m {
        lemma_joined_place(pieces, k, (m - 1) as nat);
        assert(whole.subrange(a, b) =~= joined(pieces, (m - 1) as nat).subrange(a, b));
    } else {
        assert(whole.subrange(a, b) =~= pieces[k as int]);
    }
}

/// The `k`-th of joined frames is found where it stands.
proof fn lemma_joined_step(pieces: Seq<Seq<u8>>, k: nat)
    requires
        k < pieces.len(),
        stream::is_frame(pieces[k as int]),
        joined(pieces, pieces.len()).len() <= usize::MAX,
    ensures
        ({
            let n = joined(pieces, pieces.len());
            let piece = pieces[k as int];
            let at = joined(pieces, k).len() as int;
            let next = joined(pieces, k + 1).len() as int;
            let f = eac3::header_at(n, at);
            &&& next <= n.len()
            &&& f.offset + f.size == next
            &&& f == (FrameInfo { offset: f.offset, ..eac3::header_at(piece, 0) })
            &&& stream::frame_bytes_of(n, f) == piece
            &&& eac3::frames_from(n, at) == seq![f] + eac3::frames_from(n, next)
        }),
{
    let n = joined(pieces, pieces.len());
    let piece = pieces[k as int];
    let at = joined(pieces, k).len() as int;
    let next = joined(pieces, k + 1).len() as int;
    lemma_joined_place(pieces, k, pieces.len());
    let here = n.subrange(at, next);
    assert(here == piece);
    assert(n[at] == here[0] && n[at + 1] == here[1]);
    assert(n.subrange(at, at + 6) =~= piece.subrange(0, 6));
    assert(eac3::header_at(n, at).size == piece.len());
}

/// The frames of joined frames, from the `k`-th on.
proof fn lemma_joined_from(pieces: Seq<Seq<u8>>, k: nat)
    requires
        k <= pieces.len(),
        forall|i: int| 0 <= i < pieces.len() ==> stream::is_frame(#[trigger] pieces[i]),
        joined(pieces, pieces.len()).len() <= usize::MAX,
    ensures
        ({
            let n = joined(pieces, pieces.len());
            let fs = eac3::frames_from(n, joined(pieces, k).len() as int);
            &&& fs.len() == pieces.len() - k
            &&& forall|i: int|
                0 <= i < fs.len() ==> (#[trigger] fs[i]).offset + fs[i].size <= n.len()
                    && stream::frame_bytes_of(n, fs[i]) == pieces[k + i] && fs[i] == (FrameInfo {
                    offset: fs[i].offset,
                    ..eac3::header_at(pieces[k + i], 0)
                })
        }),
    decreases pieces.len() - k,
{
    if k < pieces.len() {
        let n = joined(pieces, pieces.len());
        let at = joined(pieces, k).len() as int;
        let next = joined(pieces, k + 1).len() as int;
        assert(stream::is_frame(pieces[k as int]));
        lemma_joined_step(pieces, k);
        lemma_joined_from(pieces, k + 1);
        let f = eac3::header_at(n, at);
        let rest = eac3::frames_from(n, next);
        let fs = eac3::frames_from(n, at);
        assert forall|i: int| 0 <= i < fs.len() implies (#[trigger] fs[i]).offset + fs[i].size <= n.len()
            && stream::frame_bytes_of(n, fs[i]) == pieces[k + i] && fs[i] == (FrameInfo {
            offset: fs[i].offset,
            ..eac3::header_at(pieces[k + i], 0)
        }) by {
            if i > 0 {
                assert(fs[i] == rest[i - 1]);
                assert(pieces[k + i] == pieces[(k + 1) + (i - 1)]);
            } else {
                assert(fs[0] == f);
            }
        }
    }
}

/// A stream of joined frames has these frames, and no others.
pub proof fn law_joined_frames(pieces: Seq<Seq<u8>>)
    requires
        forall|i: int| 0 <= i < pieces.len() ==> stream::is_frame(#[trigger] pieces[i]),
        joined(pieces, pieces.len()).len() <= usize::MAX,
    ensures
        ({
            let n = joined(pieces, pieces.len());
            let fs = eac3::frames_of(n);
            &&& fs.len() == pieces.len()
            &&& stream::all_complete(n)
            &&& forall|i: int|
                0 <= i < fs.len() ==> stream::frame_bytes_of(n, #[trigger] fs[i]) == pieces[i] && fs[i]
                    == (FrameInfo { offset: fs[i].offset, ..eac3::header_at(pieces[i], 0) })
        }),
{
    lemma_joined_from(pieces, 0);
    let n = joined(pieces, pieces.len());
    let fs = eac3::frames_of(n);
    assert(fs == eac3::frames_from(n, 0));
    assert forall|i: int| 0 <= i < fs.len() implies stream::frame_bytes_of(n, #[trigger] fs[i]) == pieces[i]
        && fs[i] == (FrameInfo { offset: fs[i].offset, ..eac3::header_at(pieces[i], 0) }) by {
        assert(stream::frame_bytes_of(n, fs[i]) == pieces[0 + i]);
    }
}

/// Bytes whose bits start with the syncword, and whose header says their length, are a frame.
proof fn lemma_bits_are_frame(frame: Seq<u8>, out: Seq<bool>, size: int)
    requires
        stream::is_frame(frame),
        8 <= size,
        out.len() == 8 * size,
        out.take(16) == bits::bits_of(frame).take(16),
        eac3::header_bits(out, 0).size == size,
    ensures
        stream::is_frame(bits::pack(out)),
        bits::bits_of(bits::pack(out)) == out,
        eac3::header_at(bits::pack(out), 0) == eac3::header_bits(out, 0),
{
    let b = bits::pack(out);
    let s = bits::bits_of(frame);
    bits::lemma_pack_bits(out);
    assert(bits::bits_of(b) =~= out);
    assert(b.len() == size);
    stream::lemma_head_bytes(b);
    bits::lemma_bits_subrange(frame, 0, 2);
    bits::lemma_bits_subrange(b, 0, 2);
    assert(out.take(16) =~= out.subrange(0, 16));
    assert(s.take(16) =~= s.subrange(0, 16));
    bits::lemma_pack_of_bits(frame.subrange(0, 2));
    bits::lemma_pack_of_bits(b.subrange(0, 2));
    assert(b.subrange(0, 2) == frame.subrange(0, 2));
    assert(b[0] == b.subrange(0, 2)[0] && b[1] == b.subrange(0, 2)[1]);
    assert(frame[0] == frame.subrange(0, 2)[0] && frame[1] == frame.subrange(0, 2)[1]);
}

/// A resized frame starts as the frame does.
proof fn lemma_resized_start(s: Seq<bool>, size: int, p: int)
    requires
        51 <= p <= s.len(),
    ensures
        inject::resized(s, size).take(p).len() == p,
        inject::resized(s, size).take(p).take(16) == s.take(16),
{
    bits::lemma_be_len((size / 2 - 1) as nat, 11);
    assert(inject::resized(s, size).take(p).take(16) =~= s.take(16));
}

/// A frame with EMDF in a skip field starts as the frame does.
#[verifier::spinoff_prover]
proof fn lemma_skip_start(
    s: Seq<bool>,
    info: FrameInfo,
    points: Seq<int>,
    a: Seq<bool>,
    e: Seq<bool>,
    target: int,
)
    requires
        bsi::addbsie_pos(s, info) + 1 <= s.len(),
    ensures
        inject::sealed(inject::skip_frame(s, info, points, a, e, target)).take(16) == s.take(16),
{
    bsi::lemma_bsi_bounds(s, info);
    let size = inject::frame_bytes(inject::skip_need(s, info, a.len() as int, e.len() as int));
    bits::lemma_be_len((size / 2 - 1) as nat, 11);
    let f = inject::front(s, info, size);
    assert(f.len() >= 16);
    assert(f.take(16) =~= s.take(16));
    let pre = inject::skip_frame(s, info, points, a, e, target);
    assert(pre.len() >= 16);
    assert(pre.take(16) =~= f.take(16));
    assert(inject::sealed(pre).take(16) =~= pre.take(16));
}

/// A frame with additional information and auxiliary data starts as the frame does.
#[verifier::spinoff_prover]
proof fn lemma_full_start(s: Seq<bool>, p: int, a: Seq<bool>, e: Seq<bool>)
    requires
        51 <= p <= s.len(),
    ensures
        inject::sealed(inject::full_frame(s, p, a, e)).take(16) == s.take(16),
{
    let size = inject::frame_bytes(inject::full_need(s.len() as int, a.len() as int, e.len() as int));
    lemma_resized_start(s, size, p);
    let f = inject::resized(s, size).take(p);
    let pre = inject::full_frame(s, p, a, e);
    assert(pre.len() >= 16);
    assert(pre.take(16) =~= f.take(16));
    assert(inject::sealed(pre).take(16) =~= pre.take(16));
}

/// A carried frame starts as the frame does.
proof fn lemma_carried_start(s: Seq<bool>, info: FrameInfo, addbsi: Seq<u8>, emdf: Seq<u8>)
    requires
        atmos::carriage_of(s, info, addbsi.len() as int, emdf.len() as int) != Carriage::Impossible,
    ensures
        atmos::carried(s, info, addbsi, emdf).take(16) == s.take(16),
{
    let p = bsi::addbsie_pos(s, info);
    bsi::lemma_bsi_bounds(s, info);
    let a = bits::bits_of(addbsi);
    let e = bits::bits_of(emdf);
    let k = atmos::SKIP_BLOCK as int;
    if inject::can_skip(s, info, addbsi.len() as int, emdf.len() as int, k) {
        let w = eac3_audblk::frame_walk(s, info, p + 1);
        eac3_audblk::law_points_increase(s, info, p + 1);
        assert(p + 1 + 10 < w->0.points[5]);
        lemma_skip_start(s, info, w->0.points, a, e, k);
    } else {
        lemma_full_start(s, p, a, e);
    }
}

/// The bytes of a carried frame.
pub open spec fn carried_size(s: Seq<bool>, info: FrameInfo, addbsi: int, emdf: int) -> int {
    if inject::can_skip(s, info, addbsi, emdf, atmos::SKIP_BLOCK as int) {
        inject::frame_bytes(inject::skip_need(s, info, 8 * addbsi, 8 * emdf))
    } else {
        inject::frame_bytes(inject::full_need(s.len() as int, 8 * addbsi, 8 * emdf))
    }
}

/// A carried frame has the frame's header, with its own size.
proof fn lemma_carried_header(s: Seq<bool>, info: FrameInfo, addbsi: Seq<u8>, emdf: Seq<u8>)
    requires
        1 <= addbsi.len() <= 64,
        atmos::carriage_of(s, info, addbsi.len() as int, emdf.len() as int) != Carriage::Impossible,
    ensures
        ({
            let out = atmos::carried(s, info, addbsi, emdf);
            let size = carried_size(s, info, addbsi.len() as int, emdf.len() as int);
            &&& out.len() == 8 * size
            &&& s.len() <= 8 * size <= 8 * MAX_FRAME_BYTES
            &&& eac3::header_bits(out, 0) == (FrameInfo {
                size: size as usize,
                ..eac3::header_bits(s, 0)
            })
        }),
{
    assert(bits::bits_of(addbsi).len() == 8 * addbsi.len());
    assert(bits::bits_of(emdf).len() == 8 * emdf.len());
    if inject::can_skip(s, info, addbsi.len() as int, emdf.len() as int, atmos::SKIP_BLOCK as int) {
        inject::law_skip_roundtrip(s, info, info, addbsi, emdf, atmos::SKIP_BLOCK as int, 0, 0);
    } else {
        inject::law_full_roundtrip(s, info, info, addbsi, bits::bits_of(emdf), 0);
    }
}

/// A carried frame is a frame.
proof fn lemma_carried_is_frame(frame: Seq<u8>, info: FrameInfo, addbsi: Seq<u8>, emdf: Seq<u8>)
    requires
        stream::is_frame(frame),
        bsi::same_layout(info, eac3::header_at(frame, 0)),
        1 <= addbsi.len() <= 64,
        atmos::carriage_of(bits::bits_of(frame), info, addbsi.len() as int, emdf.len() as int)
            != Carriage::Impossible,
    ensures
        ({
            let out = atmos::carried(bits::bits_of(frame), info, addbsi, emdf);
            &&& stream::is_frame(bits::pack(out))
            &&& bits::bits_of(bits::pack(out)) == out
            &&& bsi::same_layout(info, eac3::header_at(bits::pack(out), 0))
        }),
{
    let s = bits::bits_of(frame);
    let out = atmos::carried(s, info, addbsi, emdf);
    lemma_carried_start(s, info, addbsi, emdf);
    stream::lemma_head_bytes(frame);
    lemma_carried_header(s, info, addbsi, emdf);
    assert(s.len() == 8 * frame.len());
    lemma_bits_are_frame(frame, out, carried_size(s, info, addbsi.len() as int, emdf.len() as int));
}

/// Items that the additional information has room for.
pub open spec fn items_ok(items: Seq<(Vec<u8>, Vec<u8>)>) -> bool {
    &&& items.len() >= 1
    &&& forall|i: int|
        0 <= i < items.len() ==> 1 <= (#[trigger] items[i]).1@.len() <= 64
}

/// Every frame of the stream can carry its item.
pub open spec fn all_carried(data: Seq<u8>, items: Seq<(Vec<u8>, Vec<u8>)>) -> bool {
    forall|i: int|
        0 <= i < eac3::frames_of(data).len() ==> #[trigger] item_fits(
            data,
            eac3::frames_of(data),
            items,
            i,
        )
}

/// The stream in which every frame carries its item.
pub open spec fn carried_stream(data: Seq<u8>, items: Seq<(Vec<u8>, Vec<u8>)>) -> Seq<u8> {
    joined(
        carried_frames(data, eac3::frames_of(data), items),
        eac3::frames_of(data).len(),
    )
}

/// The frame that carries the item of frame `i` is a frame.
proof fn lemma_carried_frame(data: Seq<u8>, items: Seq<(Vec<u8>, Vec<u8>)>, i: int)
    requires
        data.len() <= usize::MAX,
        stream::all_complete(data),
        items_ok(items),
        0 <= i < eac3::frames_of(data).len(),
        eac3::frames_of(data)[i].size >= 8,
        item_fits(data, eac3::frames_of(data), items, i),
    ensures
        ({
            let fs = eac3::frames_of(data);
            let piece = carried_frame(data, fs, items, i);
            &&& stream::is_frame(piece)
            &&& bits::bits_of(piece) == atmos::carried(
                frame_bits(data, fs, i),
                fs[i],
                item_of(items, i).1,
                item_of(items, i).0,
            )
            &&& bsi::same_layout(fs[i], eac3::header_at(piece, 0))
        }),
{
    let fs = eac3::frames_of(data);
    stream::law_streamed_frames(data);
    stream::lemma_frame_alone(data, i);
    let k = i % (items.len() as int);
    assert(1 <= items[k].1@.len() <= 64);
    lemma_carried_is_frame(
        stream::frame_bytes_of(data, fs[i]),
        fs[i],
        item_of(items, i).1,
        item_of(items, i).0,
    );
}

/// Carrying metadata keeps the number of frames. Each new frame is the old one with its item in it, and
/// it is laid out as the old one.
pub proof fn law_carried_stream(data: Seq<u8>, items: Seq<(Vec<u8>, Vec<u8>)>)
    requires
        data.len() <= usize::MAX,
        stream::all_complete(data),
        items_ok(items),
        all_carried(data, items),
        forall|i: int|
            0 <= i < eac3::frames_of(data).len() ==> (#[trigger] eac3::frames_of(data)[i]).size >= 8,
        carried_stream(data, items).len() <= usize::MAX,
    ensures
        ({
            let fs = eac3::frames_of(data);
            let out = carried_stream(data, items);
            let gs = eac3::frames_of(out);
            &&& gs.len() == fs.len()
            &&& stream::all_complete(out)
            &&& forall|i: int|
                0 <= i < gs.len() ==> bsi::same_layout(fs[i], #[trigger] gs[i]) && frame_bits(out, gs, i)
                    == atmos::carried(
                    frame_bits(data, fs, i),
                    fs[i],
                    item_of(items, i).1,
                    item_of(items, i).0,
                )
        }),
{
    let fs = eac3::frames_of(data);
    let pieces = carried_frames(data, fs, items);
    let out = carried_stream(data, items);
    let gs = eac3::frames_of(out);
    assert forall|i: int| 0 <= i < pieces.len() implies stream::is_frame(#[trigger] pieces[i]) by {
        assert(fs[i].size >= 8);
        assert(item_fits(data, fs, items, i));
        lemma_carried_frame(data, items, i);
    }
    law_joined_frames(pieces);
    assert forall|i: int| 0 <= i < gs.len() implies bsi::same_layout(fs[i], #[trigger] gs[i])
        && frame_bits(out, gs, i) == atmos::carried(
        frame_bits(data, fs, i),
        fs[i],
        item_of(items, i).1,
        item_of(items, i).0,
    ) by {
        assert(fs[i].size >= 8);
        assert(item_fits(data, fs, items, i));
        lemma_carried_frame(data, items, i);
        assert(stream::frame_bytes_of(out, gs[i]) == pieces[i]);
    }
}

/// Every frame that carries metadata proves clean: the check over everything behind the syncword is
/// zero.
pub proof fn law_carried_clean(data: Seq<u8>, items: Seq<(Vec<u8>, Vec<u8>)>)
    requires
        data.len() <= usize::MAX,
        stream::all_complete(data),
        items_ok(items),
        all_carried(data, items),
        forall|i: int|
            0 <= i < eac3::frames_of(data).len() ==> (#[trigger] eac3::frames_of(data)[i]).size >= 8,
        carried_stream(data, items).len() <= usize::MAX,
    ensures
        ({
            let out = carried_stream(data, items);
            forall|i: int|
                0 <= i < eac3::frames_of(out).len() ==> crc::crc16_of(
                    (#[trigger] frame_bits(out, eac3::frames_of(out), i)).skip(16),
                ) == 0
        }),
{
    let fs = eac3::frames_of(data);
    let out = carried_stream(data, items);
    let gs = eac3::frames_of(out);
    law_carried_stream(data, items);
    assert forall|i: int| 0 <= i < gs.len() implies crc::crc16_of(
        (#[trigger] frame_bits(out, gs, i)).skip(16),
    ) == 0 by {
        assert(bsi::same_layout(fs[i], gs[i]));
        assert(fs[i].size >= 8);
        assert(item_fits(data, fs, items, i));
        stream::law_streamed_frames(data);
        stream::lemma_frame_alone(data, i);
        lemma_carried_clean(
            frame_bits(data, fs, i),
            fs[i],
            item_of(items, i).1,
            item_of(items, i).0,
        );
    }
}

proof fn lemma_carried_clean(s: Seq<bool>, info: FrameInfo, addbsi: Seq<u8>, emdf: Seq<u8>)
    requires
        atmos::carriage_of(s, info, addbsi.len() as int, emdf.len() as int) != Carriage::Impossible,
    ensures
        crc::crc16_of(atmos::carried(s, info, addbsi, emdf).skip(16)) == 0,
{
    let p = bsi::addbsie_pos(s, info);
    bsi::lemma_bsi_bounds(s, info);
    let a = bits::bits_of(addbsi);
    let e = bits::bits_of(emdf);
    if inject::can_skip(s, info, addbsi.len() as int, emdf.len() as int, atmos::SKIP_BLOCK as int) {
        eac3_audblk::law_points_increase(s, info, p + 1);
        let points = eac3_audblk::frame_walk(s, info, p + 1)->0.points;
        let size = inject::frame_bytes(inject::skip_need(s, info, a.len() as int, e.len() as int));
        bits::lemma_be_len((size / 2 - 1) as nat, 11);
        assert(inject::front(s, info, size).len() >= 16);
        inject::law_sealed_clean(
            inject::skip_frame(s, info, points, a, e, atmos::SKIP_BLOCK as int),
        );
    } else {
        let size = inject::frame_bytes(inject::full_need(s.len() as int, a.len() as int, e.len() as int));
        bits::lemma_be_len((size / 2 - 1) as nat, 11);
        assert(inject::resized(s, size).take(p).len() >= 16);
        inject::law_sealed_clean(inject::full_frame(s, p, a, e));
    }
}

/// Where the items announce `objects` objects, every frame of the new stream is found to announce their
/// complexity index: their number, up to 16.
pub proof fn law_all_announced(
    t: JocTables,
    data: Seq<u8>,
    items: Seq<(Vec<u8>, Vec<u8>)>,
    objects: int,
    dynamic: int,
)
    requires
        data.len() <= usize::MAX,
        stream::all_complete(data),
        items_ok(items),
        all_carried(data, items),
        forall|i: int|
            0 <= i < eac3::frames_of(data).len() ==> (#[trigger] eac3::frames_of(data)[i]).size >= 8,
        carried_stream(data, items).len() <= usize::MAX,
        1 <= objects,
        forall|i: int|
            0 <= i < items.len() ==> (#[trigger] items[i]).1@ == atmos::addbsi_for(objects),
    ensures
        ({
            let out = carried_stream(data, items);
            let gs = eac3::frames_of(out);
            check_counts(t, out, gs, atmos::announced(objects), dynamic, gs.len()).0 == eac3::frames_of(
                data,
            ).len()
        }),
{
    let fs = eac3::frames_of(data);
    let out = carried_stream(data, items);
    let gs = eac3::frames_of(out);
    law_carried_stream(data, items);
    assert forall|i: int| 0 <= i < gs.len() implies atmos::flag_ok(
        #[trigger] frame_bits(out, gs, i),
        gs[i],
        atmos::announced(objects),
    ) by {
        assert(bsi::same_layout(fs[i], gs[i]));
        assert(item_fits(data, fs, items, i));
        let k = i % (items.len() as int);
        assert(items[k].1@ == atmos::addbsi_for(objects));
        assert(1 <= items[k].1@.len() <= 64);
        atmos::law_carried_flag(frame_bits(data, fs, i), fs[i], gs[i], objects, items[k].0@);
    }
    lemma_all_announced(t, out, gs, atmos::announced(objects), dynamic, gs.len());
}

proof fn lemma_all_announced(
    t: JocTables,
    data: Seq<u8>,
    frames: Seq<FrameInfo>,
    objects: int,
    dynamic: int,
    n: nat,
)
    requires
        n <= frames.len(),
        forall|i: int|
            0 <= i < frames.len() ==> atmos::flag_ok(
                #[trigger] frame_bits(data, frames, i),
                frames[i],
                objects,
            ),
    ensures
        check_counts(t, data, frames, objects, dynamic, n).0 == n,
    decreases n,
{
    if n > 0 {
        lemma_all_announced(t, data, frames, objects, dynamic, (n - 1) as nat);
        assert(atmos::flag_ok(frame_bits(data, frames, n - 1), frames[n - 1], objects));
    }
}

/// The items are the metadata of frames with these objects and gain codes.
pub open spec fn items_of<P: EmdfProtector>(
    items: Seq<(Vec<u8>, Vec<u8>)>,
    objects: Seq<Vec<ObjectCode>>,
    tree: joc::Tree,
    codes: Seq<Vec<[i32; 5]>>,
    prot: P,
) -> bool {
    &&& items.len() == objects.len()
    &&& items.len() == codes.len()
    &&& forall|i: int|
        0 <= i < items.len() ==> bits::bits_of((#[trigger] items[i]).0@) == emdf::container_bits(
            atmos::atmos_payloads(
                bits::pack(oamd::oamd_bits(objects[i]@, true)),
                bits::pack(joc::joc_bits(tree, codes[i]@, (i % 1024) as u16)),
            ),
            prot,
        ) && items[i].1@ == atmos::addbsi_for(objects[i]@.len() as int + 1)
}

/// In every frame of the stream that carries its item, the EMDF is the first thing that looks like one.
pub open spec fn first_is_carried(data: Seq<u8>, items: Seq<(Vec<u8>, Vec<u8>)>) -> bool {
    let fs = eac3::frames_of(data);
    forall|i: int|
        0 <= i < fs.len() ==> joc::first_emdf(
            atmos::carried(
                #[trigger] frame_bits(data, fs, i),
                fs[i],
                item_of(items, i).1,
                item_of(items, i).0,
            ),
            0,
        ) == Some(
            atmos::emdf_pos(
                frame_bits(data, fs, i),
                fs[i],
                item_of(items, i).1.len() as int,
                item_of(items, i).0.len() as int,
            ),
        )
}

#[verifier::spinoff_prover]
proof fn lemma_item_found<P: EmdfProtector>(
    data: Seq<u8>,
    items: Seq<(Vec<u8>, Vec<u8>)>,
    objects: Seq<Vec<ObjectCode>>,
    tables: JocTables,
    codes: Seq<Vec<[i32; 5]>>,
    prot: P,
    nobj: int,
    info: FrameInfo,
    i: int,
)
    requires
        items.len() >= 1,
        0 <= i < eac3::frames_of(data).len(),
        all_carried(data, items),
        items_of(items, objects, tables.fine_generic@, codes, prot),
        1 <= nobj <= 64,
        forall|i: int|
            0 <= i < objects.len() ==> (#[trigger] objects[i])@.len() == nobj && oamd::all_ok(objects[i]@),
        forall|i: int|
            0 <= i < codes.len() ==> (#[trigger] codes[i])@.len() == nobj && joc::codes_ok(codes[i]@),
        joc::tree_ok(tables.fine_generic@, 0, joc::MAX_CODE_BITS as nat),
        joc::covers_fine(tables.fine_generic@),
        tables.num_bands[joc::ENC_BANDS_IDX as int] == joc::ENC_BANDS,
        first_is_carried(data, items),
    ensures
        ({
            let fs = eac3::frames_of(data);
            let out = atmos::carried(
                frame_bits(data, fs, i),
                fs[i],
                item_of(items, i).1,
                item_of(items, i).0,
            );
            bsi::same_layout(fs[i], info) ==> atmos::flag_ok(out, info, nobj + 1) == (nobj <= 15)
                && atmos::oamd_ok(out, nobj + 1) && atmos::joc_ok(tables, out, nobj)
        }),
{
    let fs = eac3::frames_of(data);
    if bsi::same_layout(fs[i], info) {
        let s = frame_bits(data, fs, i);
        let k = i % (items.len() as int);
        assert(item_fits(data, fs, items, i));
        assert(objects[k]@.len() == nobj);
        assert(codes[k]@.len() == nobj);
        assert(items[k].1@ == atmos::addbsi_for(nobj + 1));
        atmos::law_carried_metadata(
            s,
            fs[i],
            info,
            items[k].0@,
            objects[k]@,
            tables,
            codes[k]@,
            (k % 1024) as u16,
            prot,
        );
    }
}

/// A stream whose frames were given the metadata of dynamic objects, as many as JOC has room for, is found
/// to have it: every frame has the objects in its OAMD and in its JOC, and announces them where, the LFE
/// bed added, they are at most 16. That holds where no other bits of a frame look like an EMDF in front
/// of the one that it carries.
pub proof fn law_all_found<P: EmdfProtector>(
    data: Seq<u8>,
    items: Seq<(Vec<u8>, Vec<u8>)>,
    objects: Seq<Vec<ObjectCode>>,
    tables: JocTables,
    codes: Seq<Vec<[i32; 5]>>,
    prot: P,
    nobj: int,
)
    requires
        data.len() <= usize::MAX,
        stream::all_complete(data),
        items_ok(items),
        all_carried(data, items),
        forall|i: int|
            0 <= i < eac3::frames_of(data).len() ==> (#[trigger] eac3::frames_of(data)[i]).size >= 8,
        carried_stream(data, items).len() <= usize::MAX,
        items_of(items, objects, tables.fine_generic@, codes, prot),
        1 <= nobj <= 64,
        forall|i: int|
            0 <= i < objects.len() ==> (#[trigger] objects[i])@.len() == nobj && oamd::all_ok(objects[i]@),
        forall|i: int|
            0 <= i < codes.len() ==> (#[trigger] codes[i])@.len() == nobj && joc::codes_ok(codes[i]@),
        joc::tree_ok(tables.fine_generic@, 0, joc::MAX_CODE_BITS as nat),
        joc::covers_fine(tables.fine_generic@),
        tables.num_bands[joc::ENC_BANDS_IDX as int] == joc::ENC_BANDS,
        first_is_carried(data, items),
    ensures
        ({
            let out = carried_stream(data, items);
            let gs = eac3::frames_of(out);
            let n = eac3::frames_of(data).len();
            gs.len() == n && check_counts(tables, out, gs, nobj + 1, nobj, n) == (
                if nobj <= 15 {
                    n
                } else {
                    0
                },
                n,
                n,
            )
        }),
{
    let fs = eac3::frames_of(data);
    let out = carried_stream(data, items);
    let gs = eac3::frames_of(out);
    law_carried_stream(data, items);
    assert forall|i: int| 0 <= i < gs.len() implies #[trigger] frame_found(
        tables,
        out,
        gs,
        nobj + 1,
        nobj,
        i,
    ) by {
        lemma_item_found(data, items, objects, tables, codes, prot, nobj, gs[i], i);
        assert(bsi::same_layout(fs[i], gs[i]));
    }
    lemma_all_found(tables, out, gs, nobj + 1, nobj, gs.len());
}

/// Frame `i` has the metadata that it should have, and announces the objects up to 16.
pub open spec fn frame_found(
    t: JocTables,
    data: Seq<u8>,
    frames: Seq<FrameInfo>,
    objects: int,
    dynamic: int,
    i: int,
) -> bool {
    let s = frame_bits(data, frames, i);
    &&& atmos::flag_ok(s, frames[i], objects) == (objects <= 16)
    &&& atmos::oamd_ok(s, objects)
    &&& atmos::joc_ok(t, s, dynamic)
}

proof fn lemma_all_found(
    t: JocTables,
    data: Seq<u8>,
    frames: Seq<FrameInfo>,
    objects: int,
    dynamic: int,
    n: nat,
)
    requires
        n <= frames.len(),
        forall|i: int|
            0 <= i < frames.len() ==> #[trigger] frame_found(t, data, frames, objects, dynamic, i),
    ensures
        check_counts(t, data, frames, objects, dynamic, n) == (
            if objects <= 16 {
                n
            } else {
                0
            },
            n,
            n,
        ),
    decreases n,
{
    if n > 0 {
        lemma_all_found(t, data, frames, objects, dynamic, (n - 1) as nat);
        assert(frame_found(t, data, frames, objects, dynamic, n - 1));
    }
}

/// What `inject_payloads` puts into the frames.
spec fn outcomes_of(data: Seq<u8>, payloads: Seq<Vec<u8>>) -> Seq<Option<(Vec<u8>, usize)>> {
    Seq::new(
        stream::complete_frames(data).len(),
        |i: int|
            Some(
                (
                    payloads[i % (payloads.len() as int)],
                    (8 * payload_of(payloads, i).len()) as usize,
                ),
            ),
    )
}

/// Every complete frame of the stream has room for its payload.
pub open spec fn all_fit(data: Seq<u8>, payloads: Seq<Vec<u8>>) -> bool {
    forall|i: int|
        0 <= i < stream::complete_frames(data).len() ==> #[trigger] payload_fits(
            stream::complete_frames(data),
            payloads,
            i,
        )
}

/// The stream in which every complete frame has its payload.
pub open spec fn marked_stream(data: Seq<u8>, payloads: Seq<Vec<u8>>) -> Seq<u8> {
    stream::rebuilt(data, stream::complete_frames(data), marked_frames(data, payloads))
}

/// Injecting payloads keeps the number of frames, and every complete frame of the new stream has its
/// payload as its auxiliary data.
pub proof fn law_marked_stream(data: Seq<u8>, payloads: Seq<Vec<u8>>)
    requires
        data.len() <= usize::MAX,
        payloads.len() >= 1,
        all_fit(data, payloads),
        forall|i: int| 0 <= i < payloads.len() ==> 1 <= 8 * (#[trigger] payloads[i])@.len() < 16384,
        forall|i: int|
            0 <= i < stream::complete_frames(data).len() ==> (#[trigger] stream::complete_frames(data)[i]).size >= 8,
        marked_stream(data, payloads).len() <= usize::MAX,
    ensures
        ({
            let out = marked_stream(data, payloads);
            let gs = stream::complete_frames(out);
            &&& eac3::frames_of(out).len() == eac3::frames_of(data).len()
            &&& gs.len() == stream::complete_frames(data).len()
            &&& forall|i: int|
                0 <= i < gs.len() ==> atmos::aux_is(
                    #[trigger] frame_bits(out, gs, i),
                    payload_of(payloads, i),
                ) && inject::aux_of(frame_bits(out, gs, i)) == Some(
                    bits::bits_of(payload_of(payloads, i)),
                )
        }),
{
    let fs = stream::complete_frames(data);
    let outcomes = outcomes_of(data, payloads);
    let out = marked_stream(data, payloads);
    let made = Seq::new(
        outcomes.len(),
        |i: int| stream::injected(stream::frame_bytes_of(data, fs[i]), outcomes[i]),
    );
    assert forall|i: int| 0 <= i < fs.len() implies #[trigger] made[i] == marked_frames(
        data,
        payloads,
    )[i] by {
        let p = payloads[i % (payloads.len() as int)];
        assert(1 <= 8 * p@.len() < 16384);
        assert(bits::bits_of(p@).take(8 * p@.len() as int) =~= bits::bits_of(p@));
    }
    assert(made =~= marked_frames(data, payloads));
    assert forall|i: int| 0 <= i < fs.len() implies (#[trigger] fs[i]).size >= 8 && stream::outcome_ok(
        fs[i],
        outcomes[i],
    ) by {
        assert(payload_fits(fs, payloads, i));
        assert(1 <= 8 * payloads[i % (payloads.len() as int)]@.len() < 16384);
    }
    stream::law_injected_frames(data, outcomes);
    let gs = stream::complete_frames(out);
    assert forall|i: int| 0 <= i < gs.len() implies atmos::aux_is(
        #[trigger] frame_bits(out, gs, i),
        payload_of(payloads, i),
    ) && inject::aux_of(frame_bits(out, gs, i)) == Some(bits::bits_of(payload_of(payloads, i))) by {
        let p = payloads[i % (payloads.len() as int)];
        assert(1 <= 8 * p@.len() < 16384);
        assert(outcomes[i] == Some((p, (8 * p@.len()) as usize)));
        assert(bits::bits_of(p@).take(8 * p@.len() as int) =~= bits::bits_of(p@));
        bits::lemma_pack_of_bits(p@);
    }
}

/// A stream whose frames were given the OAMD of objects and an LFE bed is found to have it in every
/// complete frame.
pub proof fn law_oamd_stream<P: EmdfProtector>(
    data: Seq<u8>,
    payloads: Seq<Vec<u8>>,
    objects: Seq<Seq<ObjectCode>>,
    prot: P,
    nobj: int,
)
    requires
        data.len() <= usize::MAX,
        payloads.len() >= 1,
        all_fit(data, payloads),
        forall|i: int| 0 <= i < payloads.len() ==> 8 * (#[trigger] payloads[i])@.len() < 16384,
        forall|i: int|
            0 <= i < stream::complete_frames(data).len() ==> (#[trigger] stream::complete_frames(data)[i]).size >= 8,
        marked_stream(data, payloads).len() <= usize::MAX,
        objects.len() == payloads.len(),
        oamd::element_len(nobj, true) <= 4368,
        forall|i: int|
            0 <= i < objects.len() ==> (#[trigger] objects[i]).len() == nobj && oamd::all_ok(objects[i])
                && bits::bits_of(payloads[i]@) == emdf::container_bits(
                seq![(emdf::PAYLOAD_OAMD, bits::pack(oamd::oamd_bits(objects[i], true)))],
                prot,
            ),
    ensures
        ({
            let out = marked_stream(data, payloads);
            let gs = stream::complete_frames(out);
            let n = stream::complete_frames(data).len();
            gs.len() == n && aux_counts(out, gs, nobj + 1, n) == (n, n)
        }),
{
    let out = marked_stream(data, payloads);
    let gs = stream::complete_frames(out);
    assert forall|i: int| 0 <= i < payloads.len() implies 1 <= 8 * (#[trigger] payloads[i])@.len()
        < 16384 by {
        assert(objects[i].len() == nobj);
        emdf::lemma_container(
            seq![(emdf::PAYLOAD_OAMD, bits::pack(oamd::oamd_bits(objects[i], true)))],
            prot,
        );
        assert(bits::bits_of(payloads[i]@).len() == 8 * payloads[i]@.len());
    }
    law_marked_stream(data, payloads);
    assert forall|i: int| 0 <= i < gs.len() implies atmos::aux_oamd_ok(
        #[trigger] frame_bits(out, gs, i),
        nobj + 1,
    ) == Some(true) by {
        let k = i % (payloads.len() as int);
        assert(objects[k].len() == nobj);
        assert(atmos::aux_is(frame_bits(out, gs, i), payload_of(payloads, i)));
        atmos::lemma_oamd_in_aux(frame_bits(out, gs, i), payloads[k]@, objects[k], prot);
    }
    lemma_all_aux(out, gs, nobj + 1, gs.len());
}

proof fn lemma_all_aux(data: Seq<u8>, frames: Seq<FrameInfo>, objects: int, n: nat)
    requires
        n <= frames.len(),
        forall|i: int|
            0 <= i < frames.len() ==> atmos::aux_oamd_ok(
                #[trigger] frame_bits(data, frames, i),
                objects,
            ) == Some(true),
    ensures
        aux_counts(data, frames, objects, n) == (n, n),
    decreases n,
{
    if n > 0 {
        lemma_all_aux(data, frames, objects, (n - 1) as nat);
        assert(atmos::aux_oamd_ok(frame_bits(data, frames, n - 1), objects) == Some(true));
    }
}

/// The frame `out` that was made from frame `i` of the core stream has the other stream's container, and
/// zeros behind it, in the place of its native one; and the complexity index, where one is given. That
/// is said of a native container that ends in front of the check word.
pub open spec fn container_grafted(
    core: Seq<u8>,
    frames: Seq<FrameInfo>,
    mine: Seq<u8>,
    my_frames: Seq<FrameInfo>,
    complexity: Option<u8>,
    out: Seq<bool>,
    i: int,
) -> bool {
    let s = frame_bits(core, frames, i);
    let (at, n, my) = atmos::splice_plan(s, frame_bits(mine, my_frames, i))->0;
    at + 8 * n <= s.len() - 16 ==> {
        &&& out.subrange(at, at + 8 * n) == bits::bits_of(my) + bits::zeros(
            (8 * n - 8 * my.len()) as nat,
        )
        &&& complexity matches Some(cx) ==> bits::field(
            out,
            inject::complexity_pos(s, frames[i]),
            8,
        ) == cx
    }
}

/// Grafting keeps the frames of the core stream: their number, their sizes and their headers; and every
/// frame that gets another EMDF proves clean and has it.
pub proof fn law_grafted_stream(
    core: Seq<u8>,
    mine: Seq<u8>,
    my_frames: Seq<FrameInfo>,
    complexity: Option<u8>,
)
    requires
        core.len() <= usize::MAX,
        stream::all_complete(core),
        forall|i: int|
            0 <= i < eac3::frames_of(core).len() ==> (#[trigger] eac3::frames_of(core)[i]).size >= 8,
        joined(
            grafted_frames(core, eac3::frames_of(core), mine, my_frames, complexity),
            eac3::frames_of(core).len(),
        ).len() <= usize::MAX,
    ensures
        ({
            let fs = eac3::frames_of(core);
            let out = joined(grafted_frames(core, fs, mine, my_frames, complexity), fs.len());
            let gs = eac3::frames_of(out);
            &&& gs.len() == fs.len()
            &&& stream::all_complete(out)
            &&& forall|i: int|
                0 <= i < gs.len() ==> #[trigger] gs[i] == (FrameInfo { offset: gs[i].offset, ..fs[i] })
            &&& forall|i: int|
                0 <= i < gs.len() && #[trigger] graft_of(core, fs, mine, my_frames, complexity, i) is Some
                    ==> crc::crc16_of(frame_bits(out, gs, i).skip(16)) == 0 && container_grafted(
                    core,
                    fs,
                    mine,
                    my_frames,
                    complexity,
                    frame_bits(out, gs, i),
                    i,
                )
        }),
{
    let fs = eac3::frames_of(core);
    let pieces = grafted_frames(core, fs, mine, my_frames, complexity);
    let out = joined(pieces, fs.len());
    let gs = eac3::frames_of(out);
    assert forall|i: int| 0 <= i < pieces.len() implies stream::is_frame(#[trigger] pieces[i]) by {
        assert(fs[i].size >= 8);
        lemma_grafted_frame(core, mine, my_frames, complexity, i);
    }
    law_joined_frames(pieces);
    assert forall|i: int| 0 <= i < gs.len() implies #[trigger] gs[i] == (FrameInfo {
        offset: gs[i].offset,
        ..fs[i]
    }) by {
        assert(fs[i].size >= 8);
        lemma_grafted_frame(core, mine, my_frames, complexity, i);
        assert(gs[i] == (FrameInfo { offset: gs[i].offset, ..eac3::header_at(pieces[i], 0) }));
    }
    assert forall|i: int|
        0 <= i < gs.len() && #[trigger] graft_of(core, fs, mine, my_frames, complexity, i) is Some implies crc::crc16_of(
        frame_bits(out, gs, i).skip(16),
    ) == 0 && container_grafted(
        core,
        fs,
        mine,
        my_frames,
        complexity,
        frame_bits(out, gs, i),
        i,
    ) by {
        assert(fs[i].size >= 8);
        lemma_grafted_frame(core, mine, my_frames, complexity, i);
        assert(stream::frame_bytes_of(out, gs[i]) == pieces[i]);
    }
}

/// A frame of the core stream is a frame after the graft, with the same header.
proof fn lemma_grafted_frame(
    core: Seq<u8>,
    mine: Seq<u8>,
    my_frames: Seq<FrameInfo>,
    complexity: Option<u8>,
    i: int,
)
    requires
        core.len() <= usize::MAX,
        stream::all_complete(core),
        0 <= i < eac3::frames_of(core).len(),
        eac3::frames_of(core)[i].size >= 8,
    ensures
        ({
            let fs = eac3::frames_of(core);
            let piece = grafted_frames(core, fs, mine, my_frames, complexity)[i];
            &&& stream::is_frame(piece)
            &&& fs[i] == (FrameInfo { offset: fs[i].offset, ..eac3::header_at(piece, 0) })
            &&& graft_of(core, fs, mine, my_frames, complexity, i) is Some ==> crc::crc16_of(
                bits::bits_of(piece).skip(16),
            ) == 0 && container_grafted(
                core,
                fs,
                mine,
                my_frames,
                complexity,
                bits::bits_of(piece),
                i,
            )
        }),
{
    let fs = eac3::frames_of(core);
    let frame = stream::frame_bytes_of(core, fs[i]);
    stream::law_streamed_frames(core);
    stream::lemma_frame_alone(core, i);
    if graft_of(core, fs, mine, my_frames, complexity, i) is Some {
        let s = frame_bits(core, fs, i);
        let (at, n, my) = atmos::splice_plan(s, frame_bits(mine, my_frames, i))->0;
        inject::law_splice_header(s, fs[i], at, n, my, complexity, 0);
        stream::lemma_head_bytes(frame);
        let out = graft_of(core, fs, mine, my_frames, complexity, i)->0;
        assert(s.len() == 8 * frame.len());
        lemma_bits_are_frame(frame, out, frame.len() as int);
        lemma_graft_place(s, fs[i], at, n, my, complexity);
    }
}

/// The container and the complexity index of a spliced frame.
proof fn lemma_graft_place(
    s: Seq<bool>,
    info: FrameInfo,
    at: int,
    n: int,
    my: Seq<u8>,
    complexity: Option<u8>,
)
    requires
        0 <= n,
        inject::can_splice(s, info, at, n, my.len() as int),
    ensures
        at + 8 * n <= s.len() - 16 ==> {
            let out = inject::sealed(
                inject::spliced(s, info, at, n, bits::bits_of(my), complexity).take(s.len() - 16),
            );
            &&& out.subrange(at, at + 8 * n) == bits::bits_of(my) + bits::zeros(
                (8 * n - 8 * my.len()) as nat,
            )
            &&& complexity matches Some(cx) ==> bits::field(out, inject::complexity_pos(s, info), 8)
                == cx
        },
{
    if at + 8 * n <= s.len() - 16 {
        inject::law_splice_keeps(s, info, at, n, my, complexity, 0);
    }
}

} // verus!
