//! What the readers of a master promise: laws on manifest, events and essence.

use crate::damf;
use crate::damf::{CafError, CafInfo, Event, ObjectRef};
use crate::passes_laws;
use vstd::prelude::*;

verus! {

// ------------------------------------------------------------------ events and keyframes

/// More events leave the keyframes as they are and add to them.
proof fn lemma_keys_prefix(events: Seq<Event>, id: u32, m: nat, n: nat)
    requires
        m <= n,
    ensures
        damf::keys_of(events, id, m).len() <= damf::keys_of(events, id, n).len(),
        damf::keys_of(events, id, n).take(damf::keys_of(events, id, m).len() as int) == damf::keys_of(
            events,
            id,
            m,
        ),
    decreases n,
{
    let a = damf::keys_of(events, id, m);
    if m < n {
        lemma_keys_prefix(events, id, m, (n - 1) as nat);
        let b = damf::keys_of(events, id, (n - 1) as nat);
        let c = damf::keys_of(events, id, n);
        assert(c.take(a.len() as int) =~= b.take(a.len() as int));
    } else {
        assert(a.take(a.len() as int) =~= a);
    }
}

/// The state behind some events is that of the last keyframe.
proof fn lemma_keys_state(events: Seq<Event>, id: u32, n: nat)
    ensures
        ({
            let keys = damf::keys_of(events, id, n);
            &&& damf::last_pos(events, id, n) == (if keys.len() > 0 {
                keys.last().pos
            } else {
                None
            })
            &&& damf::last_active(events, id, n) == (if keys.len() > 0 {
                keys.last().active
            } else {
                true
            })
        }),
    decreases n,
{
    if n > 0 {
        lemma_keys_state(events, id, (n - 1) as nat);
    }
}

/// Each event of an element makes a keyframe, in order. It stands at the event's sample. Where the event
/// has a position of three coordinates, the keyframe refers to that event; elsewhere it refers to what
/// the keyframe before it does. Where the event says whether the element is active, the keyframe says
/// the same; elsewhere it says what the keyframe before it does, and an element starts active.
pub proof fn law_keyframe(events: Seq<Event>, id: u32, i: int)
    requires
        0 <= i < events.len() <= usize::MAX,
        events[i].id == Some(id),
    ensures
        ({
            let keys = damf::keys_of(events, id, events.len());
            let j = damf::event_count(events, id, i as nat) as int;
            &&& 0 <= j < keys.len()
            &&& events[i].sample_pos matches Some(p) ==> keys[j].at == p
            &&& events[i].sample_pos is None ==> keys[j].at == 0
            &&& events[i].pos == Some(3usize) ==> keys[j].pos == Some(i as usize)
            &&& events[i].pos != Some(3usize) && j > 0 ==> keys[j].pos == keys[j - 1].pos
            &&& events[i].pos != Some(3usize) && j == 0 ==> keys[j].pos is None
            &&& events[i].active matches Some(a) ==> keys[j].active == a
            &&& events[i].active is None && j > 0 ==> keys[j].active == keys[j - 1].active
            &&& events[i].active is None && j == 0 ==> keys[j].active
        }),
{
    let keys = damf::keys_of(events, id, events.len());
    let before = damf::keys_of(events, id, i as nat);
    let after = damf::keys_of(events, id, (i + 1) as nat);
    let j = before.len() as int;
    damf::law_key_per_event(events, id, i as nat);
    lemma_keys_state(events, id, i as nat);
    lemma_keys_prefix(events, id, (i + 1) as nat, events.len());
    assert(after == before.push(after.last()));
    assert(keys[j] == keys.take(after.len() as int)[j]);
    if j > 0 {
        assert(keys[j - 1] == keys.take(after.len() as int)[j - 1]);
        assert(after[j - 1] == before[j - 1]);
    }
}

/// The events of an element are counted one by one.
pub proof fn law_event_count(events: Seq<Event>, id: u32, n: nat)
    ensures
        damf::event_count(events, id, n) == passes_laws::how_many(
            |i: int| events[i].id == Some(id),
            n,
        ),
    decreases n,
{
    if n > 0 {
        law_event_count(events, id, (n - 1) as nat);
    }
}

/// Events of other elements leave an element's keyframes as they are.
pub proof fn law_other_elements(events: Seq<Event>, id: u32, e: Event)
    requires
        e.id != Some(id),
    ensures
        damf::keys_of(events.push(e), id, events.len() + 1) == damf::keys_of(events, id, events.len()),
{
    lemma_same_keys(events, events.push(e), id, events.len());
}

proof fn lemma_same_keys(a: Seq<Event>, b: Seq<Event>, id: u32, n: nat)
    requires
        n <= a.len(),
        n <= b.len(),
        forall|i: int| 0 <= i < n ==> #[trigger] a[i] == b[i],
    ensures
        damf::keys_of(a, id, n) == damf::keys_of(b, id, n),
        damf::last_pos(a, id, n) == damf::last_pos(b, id, n),
        damf::last_active(a, id, n) == damf::last_active(b, id, n),
    decreases n,
{
    if n > 0 {
        lemma_same_keys(a, b, id, (n - 1) as nat);
        assert(a[n - 1] == b[n - 1]);
    }
}

/// The end of the timeline is the largest sample that an event names, and zero where none does.
pub proof fn law_timeline_end(events: Seq<Event>, n: nat)
    requires
        n <= events.len(),
    ensures
        ({
            let end = damf::last_sample(events, n);
            &&& forall|i: int|
                0 <= i < n ==> ((#[trigger] events[i]).sample_pos matches Some(p) ==> p <= end)
            &&& end == 0 || exists|i: int| 0 <= i < n && (#[trigger] events[i]).sample_pos == Some(end)
        }),
    decreases n,
{
    if n > 0 {
        law_timeline_end(events, (n - 1) as nat);
        let end = damf::last_sample(events, n);
        let before = damf::last_sample(events, (n - 1) as nat);
        if end != 0 {
            if end != before {
                assert(events[n - 1].sample_pos == Some(end));
            } else if before != 0 {
                let i = choose|i: int| 0 <= i < n - 1 && (#[trigger] events[i]).sample_pos == Some(before);
                assert(events[i].sample_pos == Some(end));
            }
        }
    }
}

// ------------------------------------------------------------------ beds and objects

/// Bed channels keep their manifest order: instance by instance, and in each channel by channel.
pub proof fn law_bed_order(beds: Seq<damf::BedInstance>, n: nat, i: int, k: int)
    requires
        0 <= i < n <= beds.len(),
        0 <= k < beds[i].channels@.len(),
    ensures
        ({
            let at = damf::bed_channels(beds, i as nat).len() + k;
            let bed = damf::bed_channels(beds, n);
            &&& at < bed.len()
            &&& bed[at].id == beds[i].channels@[k].id
            &&& bed[at].lfe == damf::is_lfe(beds[i].channels@[k].channel@)
            &&& damf::bed_channels(beds, (i + 1) as nat).len() == damf::bed_channels(beds, i as nat).len()
                + beds[i].channels@.len()
        }),
    decreases n,
{
    if i < n - 1 {
        law_bed_order(beds, (n - 1) as nat, i, k);
    }
}

/// A letter in its small form.
pub open spec fn small(c: char) -> int {
    if 65 <= c as u32 <= 90 {
        c as u32 + 32
    } else {
        c as u32 as int
    }
}

/// Only a name that spells `LFE`, whatever the case of its letters, is the LFE channel's; and the case of
/// its letters makes no difference.
pub proof fn law_lfe_name(name: Seq<char>, l: char, f: char, e: char)
    ensures
        damf::is_lfe(name) ==> name.len() == 3 && small(name[0]) == 108 && small(name[1]) == 102 && small(
            name[2],
        ) == 101,
        (l == 'l' || l == 'L') && (f == 'f' || f == 'F') && (e == 'e' || e == 'E') ==> damf::is_lfe(
            seq![l, f, e],
        ),
{
    assert('L' as u32 == 76 && 'l' as u32 == 108);
    assert('F' as u32 == 70 && 'f' as u32 == 102);
    assert('E' as u32 == 69 && 'e' as u32 == 101);
}

/// The LFE's channel is an LFE channel, and none behind it is.
pub proof fn law_lfe_last(bed: Seq<damf::BedChannel>, n: nat)
    requires
        n <= bed.len(),
    ensures
        match damf::last_lfe(bed, n) {
            Some(i) => 0 <= i < n && bed[i].lfe && forall|k: int| i < k < n ==> !(#[trigger] bed[k]).lfe,
            None => forall|k: int| 0 <= k < n ==> !(#[trigger] bed[k]).lfe,
        },
    decreases n,
{
    if n > 0 {
        law_lfe_last(bed, (n - 1) as nat);
    }
}

/// Every object that has an event is rendered, once for each time it is listed, with all its keyframes,
/// from the channel behind the beds that its last place in the list names. Objects without events are
/// not.
pub proof fn law_rendered(objects: Seq<ObjectRef>, beds: int, events: Seq<Event>, n: nat, i: int)
    requires
        0 <= i < n <= objects.len(),
    ensures
        ({
            let all = damf::rendered_upto(objects, beds, events, n);
            let at = damf::rendered_upto(objects, beds, events, i as nat).len() as int;
            let count = damf::event_count(events, objects[i].id, events.len());
            &&& count > 0 ==> at < all.len() && all[at].1 == damf::keys_of(
                events,
                objects[i].id,
                events.len(),
            ) && beds + i <= all[at].0 < beds + objects.len() && objects[all[at].0 - beds].id == objects[i].id
            &&& damf::rendered_upto(objects, beds, events, (i + 1) as nat).len() == at + (if count > 0 {
                1int
            } else {
                0
            })
        }),
    decreases n,
{
    damf::law_key_per_event(events, objects[i].id, events.len());
    damf::law_object_has_channel(objects, i);
    if i < n - 1 {
        law_rendered(objects, beds, events, (n - 1) as nat, i);
    }
}

// ------------------------------------------------------------------ essence

/// The bytes of `v`, most significant first.
pub open spec fn be_bytes(v: nat, n: nat) -> Seq<u8>
    decreases n,
{
    if n == 0 {
        Seq::empty()
    } else {
        be_bytes(v / 256, (n - 1) as nat).push((v % 256) as u8)
    }
}

/// 256 to the power of `n`.
pub open spec fn power(n: nat) -> nat
    decreases n,
{
    if n == 0 {
        1
    } else {
        256 * power((n - 1) as nat)
    }
}

proof fn lemma_bytes_len(v: nat, n: nat)
    ensures
        be_bytes(v, n).len() == n,
    decreases n,
{
    if n > 0 {
        lemma_bytes_len(v / 256, (n - 1) as nat);
    }
}

/// The bytes `b` stand at `i`.
pub open spec fn stands(data: Seq<u8>, i: int, b: Seq<u8>) -> bool {
    0 <= i && i + b.len() <= data.len() && data.subrange(i, i + b.len()) == b
}

/// A number of `n` bytes reads back as it was written, whatever its size.
pub proof fn law_number_bytes(data: Seq<u8>, i: int, v: nat, n: nat)
    requires
        v < power(n),
        stands(data, i, be_bytes(v, n)),
    ensures
        damf::be_at(data, i, n) == v,
    decreases n,
{
    lemma_bytes_len(v, n);
    if n > 0 {
        let m = (n - 1) as nat;
        let b = be_bytes(v, n);
        lemma_bytes_len(v / 256, m);
        assert(data.subrange(i, i + n)[n - 1] == data[i + n - 1]);
        assert(data.subrange(i, i + m) =~= b.subrange(0, m as int)) by {
            assert(b.subrange(0, m as int) =~= data.subrange(i, i + n).subrange(0, m as int));
        }
        assert(b.subrange(0, m as int) =~= be_bytes(v / 256, m));
        assert(v / 256 < power(m)) by (nonlinear_arith)
            requires
                v < 256 * power(m),
        ;
        law_number_bytes(data, i, v / 256, m);
    }
}

proof fn lemma_powers()
    ensures
        power(4) == 0x1_0000_0000,
        power(8) == 0x1_0000_0000_0000_0000,
{
    reveal_with_fuel(power, 9);
}

/// A chunk size, negative or not, reads back as it was written.
pub proof fn law_chunk_size(data: Seq<u8>, i: int, size: int)
    requires
        -0x8000_0000_0000_0000 <= size < 0x8000_0000_0000_0000,
        stands(data, i, be_bytes((size % 0x1_0000_0000_0000_0000) as nat, 8)),
    ensures
        damf::be_i64(data, i) == size,
{
    lemma_powers();
    law_number_bytes(data, i, (size % 0x1_0000_0000_0000_0000) as nat, 8);
}

/// A chunk header: its kind, and its size in eight bytes.
pub open spec fn chunk_head(kind: nat, size: int) -> Seq<u8> {
    be_bytes(kind, 4) + be_bytes((size % 0x1_0000_0000_0000_0000) as nat, 8)
}

proof fn lemma_head(data: Seq<u8>, pos: int, kind: nat, size: int)
    requires
        kind < 0x1_0000_0000,
        -0x8000_0000_0000_0000 <= size < 0x8000_0000_0000_0000,
        stands(data, pos, chunk_head(kind, size)),
    ensures
        damf::be_at(data, pos, 4) == kind,
        damf::be_i64(data, pos + 4) == size,
        pos + 12 <= data.len(),
{
    let k = be_bytes(kind, 4);
    let z = be_bytes((size % 0x1_0000_0000_0000_0000) as nat, 8);
    let h = k + z;
    lemma_powers();
    lemma_bytes_len(kind, 4);
    lemma_bytes_len((size % 0x1_0000_0000_0000_0000) as nat, 8);
    assert(data.subrange(pos, pos + 4) =~= data.subrange(pos, pos + 12).subrange(0, 4));
    assert(h.subrange(0, 4) =~= k);
    assert(data.subrange(pos + 4, pos + 12) =~= data.subrange(pos, pos + 12).subrange(4, 12));
    assert(h.subrange(4, 12) =~= z);
    law_number_bytes(data, pos, kind, 4);
    law_chunk_size(data, pos + 4, size);
}

/// A file that starts with the letters `caff` is read from byte 8 on; one that starts otherwise is no
/// CAF file.
pub proof fn law_caf_start(data: Seq<u8>)
    requires
        data.len() >= 4,
    ensures
        stands(data, 0, seq![99u8, 97, 102, 102]) ==> damf::caf_of(data) == damf::caf_from(data, 8, None),
        !stands(data, 0, seq![99u8, 97, 102, 102]) ==> damf::caf_of(data) == Err::<CafInfo, CafError>(
            CafError::NotCaf,
        ),
{
    reveal_with_fuel(damf::be_at, 5);
    let m = seq![99u8, 97, 102, 102];
    if stands(data, 0, m) {
        assert(data[0] == data.subrange(0, 4)[0] && data[1] == data.subrange(0, 4)[1] && data[2]
            == data.subrange(0, 4)[2] && data[3] == data.subrange(0, 4)[3]);
    } else if data[0] == 99 && data[1] == 97 && data[2] == 102 && data[3] == 102 {
        assert(data.subrange(0, 4) =~= m);
    }
}

/// A chunk that is neither a description nor the data is skipped, by its size.
pub proof fn law_caf_skips(data: Seq<u8>, pos: int, kind: nat, size: int, desc: Option<CafInfo>)
    requires
        kind < 0x1_0000_0000,
        kind != 0x64657363,
        kind != 0x64617461,
        0 <= size < 0x8000_0000_0000_0000,
        stands(data, pos, chunk_head(kind, size)),
    ensures
        damf::caf_from(data, pos, desc) == damf::caf_from(data, pos + 12 + size, desc),
{
    lemma_head(data, pos, kind, size);
}

/// The fields of a description, as they stand in a file.
pub open spec fn desc_bytes(
    rate: u64,
    id: Seq<u8>,
    flags: u32,
    packet: u32,
    per_packet: u32,
    channels: u32,
    depth: u32,
) -> Seq<u8> {
    be_bytes(rate as nat, 8) + id + be_bytes(flags as nat, 4) + be_bytes(packet as nat, 4) + be_bytes(
        per_packet as nat,
        4,
    ) + be_bytes(channels as nat, 4) + be_bytes(depth as nat, 4)
}

proof fn lemma_field(data: Seq<u8>, pos: int, whole: Seq<u8>, k: int, v: nat, n: nat)
    requires
        stands(data, pos, whole),
        0 <= k,
        k + n <= whole.len(),
        whole.subrange(k, k + n) == be_bytes(v, n),
        v < power(n),
    ensures
        damf::be_at(data, pos + k, n) == v,
{
    lemma_bytes_len(v, n);
    assert(data.subrange(pos + k, pos + k + n) =~= data.subrange(pos, pos + whole.len()).subrange(
        k,
        k + n,
    ));
    law_number_bytes(data, pos + k, v, n);
}

/// A description reads back field by field, and what follows it, behind its size or behind its 32 bytes
/// where it claims less, is read with it.
pub proof fn law_caf_desc(
    data: Seq<u8>,
    pos: int,
    size: int,
    rate: u64,
    id: [u8; 4],
    flags: u32,
    packet: u32,
    per_packet: u32,
    channels: u32,
    depth: u32,
    before: Option<CafInfo>,
)
    requires
        -0x8000_0000_0000_0000 <= size < 0x8000_0000_0000_0000,
        stands(data, pos, chunk_head(0x64657363, size)),
        stands(
            data,
            pos + 12,
            desc_bytes(rate, seq![id[0], id[1], id[2], id[3]], flags, packet, per_packet, channels, depth),
        ),
    ensures
        damf::caf_from(data, pos, before) == damf::caf_from(
            data,
            pos + 12 + (if size >= 32 {
                size
            } else {
                32
            }),
            Some(
                CafInfo {
                    sample_rate: rate,
                    format_id: id,
                    format_flags: flags,
                    bytes_per_packet: packet,
                    frames_per_packet: per_packet,
                    channels,
                    bits_per_channel: depth,
                    data_offset: 0,
                    data_bytes: 0,
                },
            ),
        ),
{
    let ids = seq![id[0], id[1], id[2], id[3]];
    let whole = desc_bytes(rate, ids, flags, packet, per_packet, channels, depth);
    let body = pos + 12;
    lemma_head(data, pos, 0x64657363, size);
    lemma_powers();
    lemma_bytes_len(rate as nat, 8);
    lemma_bytes_len(flags as nat, 4);
    lemma_bytes_len(packet as nat, 4);
    lemma_bytes_len(per_packet as nat, 4);
    lemma_bytes_len(channels as nat, 4);
    lemma_bytes_len(depth as nat, 4);
    assert(whole.len() == 32);
    assert(whole.subrange(0, 8) =~= be_bytes(rate as nat, 8));
    assert(whole.subrange(8, 12) =~= ids);
    assert(whole.subrange(12, 16) =~= be_bytes(flags as nat, 4));
    assert(whole.subrange(16, 20) =~= be_bytes(packet as nat, 4));
    assert(whole.subrange(20, 24) =~= be_bytes(per_packet as nat, 4));
    assert(whole.subrange(24, 28) =~= be_bytes(channels as nat, 4));
    assert(whole.subrange(28, 32) =~= be_bytes(depth as nat, 4));
    lemma_field(data, body, whole, 0, rate as nat, 8);
    lemma_field(data, body, whole, 12, flags as nat, 4);
    lemma_field(data, body, whole, 16, packet as nat, 4);
    lemma_field(data, body, whole, 20, per_packet as nat, 4);
    lemma_field(data, body, whole, 24, channels as nat, 4);
    lemma_field(data, body, whole, 28, depth as nat, 4);
    let d = damf::desc_at(data, body);
    assert forall|k: int| 0 <= k < 4 implies #[trigger] data[body + 8 + k] == ids[k] by {
        assert(data.subrange(body, body + 32)[8 + k] == data[body + 8 + k]);
        assert(whole.subrange(8, 12)[k] == whole[8 + k]);
    }
    assert(data[body + 8 + 0] == id[0] && data[body + 8 + 1] == id[1] && data[body + 8 + 2] == id[2]
        && data[body + 8 + 3] == id[3]);
    assert(d.format_id@ =~= id@);
    assert(d.format_id == id);
}

/// The data chunk gives the place of the first sample and the bytes of the samples: its size less the
/// edit count, none where it is too small for that, or, where its size is negative, all bytes up to the
/// end. Where it reaches exactly to the end of the file, so do the samples, however long the file is.
pub proof fn law_caf_data(data: Seq<u8>, pos: int, size: int, desc: CafInfo)
    requires
        data.len() <= 0x7fff_ffff_ffff_ffff,
        -0x8000_0000_0000_0000 <= size < 0x8000_0000_0000_0000,
        stands(data, pos, chunk_head(0x64617461, size)),
        pos + 16 <= data.len(),
    ensures
        ({
            &&& damf::caf_from(data, pos, Some(desc)) matches Ok(x)
            &&& x.data_offset == pos + 16
            &&& size >= 4 ==> x.data_bytes + 4 == size
            &&& 0 <= size < 4 ==> x.data_bytes == 0
            &&& size < 0 || (size >= 4 && pos + 12 + size == data.len()) ==> x.data_offset + x.data_bytes
                == data.len()
            &&& x == (CafInfo { data_offset: x.data_offset, data_bytes: x.data_bytes, ..desc })
        }),
        damf::caf_from(data, pos, None) == Err::<CafInfo, CafError>(CafError::DataBeforeDesc),
{
    lemma_head(data, pos, 0x64617461, size);
}

/// A chunk of negative size that is neither a description nor the data is refused, by its kind.
pub proof fn law_caf_negative(data: Seq<u8>, pos: int, kind: nat, size: int, desc: Option<CafInfo>)
    requires
        kind < 0x1_0000_0000,
        kind != 0x64657363,
        kind != 0x64617461,
        -0x8000_0000_0000_0000 <= size < 0,
        stands(data, pos, chunk_head(kind, size)),
    ensures
        damf::caf_from(data, pos, desc) == Err::<CafInfo, CafError>(CafError::NegativeSize(kind as u32)),
{
    lemma_head(data, pos, kind, size);
}

/// A file may end in front of a chunk, or within its kind: it is then its description, if it had one. It
/// may not end within a size, nor within a description or an edit count.
pub proof fn law_caf_end(data: Seq<u8>, pos: int, size: int, desc: Option<CafInfo>)
    requires
        0 <= pos,
        -0x8000_0000_0000_0000 <= size < 0x8000_0000_0000_0000,
    ensures
        pos + 4 > data.len() ==> damf::caf_from(data, pos, desc) == match desc {
            Some(d) => Ok::<CafInfo, CafError>(d),
            None => Err(CafError::MissingDesc),
        },
        pos + 4 <= data.len() < pos + 12 ==> damf::caf_from(data, pos, desc) == Err::<CafInfo, CafError>(
            CafError::Truncated,
        ),
        stands(data, pos, chunk_head(0x64657363, size)) && data.len() < pos + 44 ==> damf::caf_from(
            data,
            pos,
            desc,
        ) == Err::<CafInfo, CafError>(CafError::Truncated),
        stands(data, pos, chunk_head(0x64617461, size)) && data.len() < pos + 16 ==> damf::caf_from(
            data,
            pos,
            desc,
        ) == Err::<CafInfo, CafError>(CafError::Truncated),
        data.len() < 4 ==> damf::caf_of(data) == Err::<CafInfo, CafError>(CafError::Truncated),
{
    if stands(data, pos, chunk_head(0x64657363, size)) {
        lemma_head(data, pos, 0x64657363, size);
    }
    if stands(data, pos, chunk_head(0x64617461, size)) {
        lemma_head(data, pos, 0x64617461, size);
    }
}

/// Of the objects with one id the last one counts: it has that id, and none behind it does. Where none
/// counts, none has it.
pub proof fn law_last_object(objects: Seq<ObjectRef>, id: u32, n: nat)
    requires
        n <= objects.len(),
    ensures
        match damf::last_object(objects, id, n) {
            Some(k) => {
                &&& 0 <= k < n
                &&& objects[k].id == id
                &&& forall|i: int| k < i < n ==> (#[trigger] objects[i]).id != id
            },
            None => forall|i: int| 0 <= i < n ==> (#[trigger] objects[i]).id != id,
        },
    decreases n,
{
    if n > 0 && objects[n - 1].id != id {
        law_last_object(objects, id, (n - 1) as nat);
    }
}

} // verus!
