//! The Atmos master file set (DAMF): a manifest, a list of metadata events, and a CAF essence with bed
//! channels and object channels. Only what the encoder needs is modelled.

use crate::tally;
use crate::tally::tally;
use vstd::prelude::*;
use vstd::string::*;

verus! {

// ------------------------------------------------------------------ manifest

/// Top-level manifest.
pub struct Manifest {
    pub version: String,
    pub presentations: Vec<Presentation>,
}

pub struct Presentation {
    /// Filename of the metadata companion (relative to the manifest dir).
    pub metadata: String,
    /// Filename of the audio companion (relative to the manifest dir).
    pub audio: String,
    pub bed_instances: Vec<BedInstance>,
    pub objects: Vec<ObjectRef>,
}

pub struct BedInstance {
    pub channels: Vec<ChannelRef>,
}

pub struct ChannelRef {
    pub channel: String,
    pub id: u32,
}

pub struct ObjectRef {
    pub id: u32,
}

/// A character equals `upper` or, case aside, its small form.
pub open spec fn is_letter(c: char, upper: char, lower: char) -> bool {
    c == upper || c == lower
}

/// The name of the LFE channel, case aside.
pub open spec fn is_lfe(name: Seq<char>) -> bool {
    &&& name.len() == 3
    &&& is_letter(name[0], 'L', 'l')
    &&& is_letter(name[1], 'F', 'f')
    &&& is_letter(name[2], 'E', 'e')
}

fn check_lfe(name: &String) -> (b: bool)
    ensures
        b == is_lfe(name@),
{
    let s = name.as_str();
    if s.unicode_len() != 3 {
        return false;
    }
    let l = s.get_char(0);
    let f = s.get_char(1);
    let e = s.get_char(2);
    (l == 'L' || l == 'l') && (f == 'F' || f == 'f') && (e == 'E' || e == 'e')
}

/// A bed channel: whether it is the LFE channel, and its element id.
pub struct BedChannel {
    pub lfe: bool,
    pub id: u32,
}

/// The bed channels of one instance.
pub open spec fn instance_channels(b: BedInstance) -> Seq<BedChannel> {
    b.channels@.map_values(|c: ChannelRef| BedChannel { lfe: is_lfe(c.channel@), id: c.id })
}

/// The bed channels of the first `n` instances, in manifest order.
pub open spec fn bed_channels(beds: Seq<BedInstance>, n: nat) -> Seq<BedChannel>
    decreases n,
{
    if n == 0 {
        Seq::empty()
    } else {
        bed_channels(beds, (n - 1) as nat) + instance_channels(beds[n - 1])
    }
}

impl Presentation {
    /// The bed channels, in manifest order.
    pub open spec fn bed(&self) -> Seq<BedChannel> {
        bed_channels(self.bed_instances@, self.bed_instances@.len())
    }

    /// All bed channels, in manifest order.
    pub fn bed_list(&self) -> (list: Vec<BedChannel>)
        ensures
            list@ == self.bed(),
    {
        let mut list: Vec<BedChannel> = Vec::new();
        let mut n: usize = 0;
        while n < self.bed_instances.len()
            invariant
                n <= self.bed_instances@.len(),
                list@ == bed_channels(self.bed_instances@, n as nat),
            decreases self.bed_instances@.len() - n,
        {
            let b = &self.bed_instances[n];
            let ghost before = list@;
            let ghost all = instance_channels(*b);
            let mut k: usize = 0;
            assert(all.take(0) =~= Seq::empty());
            assert(list@ =~= before + all.take(0));
            while k < b.channels.len()
                invariant
                    k <= b.channels@.len(),
                    all == instance_channels(*b),
                    list@ == before + all.take(k as int),
                decreases b.channels@.len() - k,
            {
                let c = &b.channels[k];
                list.push(BedChannel { lfe: check_lfe(&c.channel), id: c.id });
                assert(all.take(k + 1) =~= all.take(k as int).push(all[k as int]));
                k = k + 1;
                assert(list@ =~= before + all.take(k as int));
            }
            assert(all.take(k as int) =~= all);
            n = n + 1;
        }
        list
    }
}

/// The last bed channel below `n` that is the LFE channel.
pub open spec fn last_lfe(bed: Seq<BedChannel>, n: nat) -> Option<int>
    decreases n,
{
    if n == 0 {
        None
    } else if bed[n - 1].lfe {
        Some(n - 1)
    } else {
        last_lfe(bed, (n - 1) as nat)
    }
}

/// The essence channel of the LFE: the last bed channel of that name.
pub fn lfe_channel(bed: &Vec<BedChannel>) -> (r: Option<usize>)
    ensures
        match r {
            Some(i) => last_lfe(bed@, bed@.len()) == Some(i as int) && i < bed@.len(),
            None => last_lfe(bed@, bed@.len()) is None,
        },
{
    let mut n: usize = bed.len();
    while n > 0
        invariant
            n <= bed@.len(),
            last_lfe(bed@, bed@.len()) == last_lfe(bed@, n as nat),
        decreases n,
    {
        if bed[n - 1].lfe {
            return Some(n - 1);
        }
        n = n - 1;
    }
    None
}

/// Whether the bed is a single LFE channel, the only bed that a programme of dynamic objects can have.
pub fn lfe_only_bed(bed: &Vec<BedChannel>) -> (b: bool)
    ensures
        b == (bed@.len() == 1 && bed@[0].lfe),
{
    bed.len() == 1 && bed[0].lfe
}

/// The last of the first `n` objects that has this id.
pub open spec fn last_object(objects: Seq<ObjectRef>, id: u32, n: nat) -> Option<int>
    decreases n,
{
    if n == 0 {
        None
    } else if objects[n - 1].id == id {
        Some(n - 1)
    } else {
        last_object(objects, id, (n - 1) as nat)
    }
}

/// The essence channel of an object: bed channels come first, then the objects in manifest order. Of
/// several objects with one id the last one's channel counts.
pub fn object_channel(objects: &Vec<ObjectRef>, bed_count: usize, id: u32) -> (r: Option<usize>)
    requires
        bed_count + objects@.len() <= usize::MAX,
    ensures
        match r {
            Some(ch) => last_object(objects@, id, objects@.len()) == Some(ch - bed_count) && bed_count
                <= ch < bed_count + objects@.len(),
            None => last_object(objects@, id, objects@.len()) is None,
        },
{
    let mut n: usize = objects.len();
    while n > 0
        invariant
            n <= objects@.len(),
            bed_count + objects@.len() <= usize::MAX,
            last_object(objects@, id, objects@.len()) == last_object(objects@, id, n as nat),
        decreases n,
    {
        if objects[n - 1].id == id {
            return Some(bed_count + (n - 1));
        }
        n = n - 1;
    }
    None
}

/// Every object of a presentation has a channel.
pub proof fn law_object_has_channel(objects: Seq<ObjectRef>, i: int)
    requires
        0 <= i < objects.len(),
    ensures
        last_object(objects, objects[i].id, objects.len()) matches Some(k) && i <= k < objects.len()
            && objects[k].id == objects[i].id,
{
    lemma_last_object(objects, i, objects.len());
}

proof fn lemma_last_object(objects: Seq<ObjectRef>, i: int, n: nat)
    requires
        0 <= i < n <= objects.len(),
    ensures
        last_object(objects, objects[i].id, n) matches Some(k) && i <= k < n && objects[k].id
            == objects[i].id,
    decreases n,
{
    if objects[n - 1].id != objects[i].id {
        lemma_last_object(objects, i, (n - 1) as nat);
    }
}

// ------------------------------------------------------------------ metadata events

/// One metadata event. Events are diff-encoded: one carries only what changed for its element.
#[derive(Clone, Copy)]
pub struct Event {
    pub id: Option<u32>,
    pub sample_pos: Option<u64>,
    pub active: Option<bool>,
    /// How many coordinates its position has.
    pub pos: Option<usize>,
}

/// A keyframe of an element: when, which event's position holds, and whether the element is active.
#[derive(Clone, Copy, PartialEq, Eq, Structural, Debug)]
pub struct Key {
    pub at: u64,
    /// The event whose position holds; the origin before there is one.
    pub pos: Option<usize>,
    pub active: bool,
}

/// The sample of an event.
pub open spec fn sample_of(e: Event) -> u64 {
    match e.sample_pos {
        Some(p) => p,
        None => 0,
    }
}

/// The last of the first `n` events of element `id` that has a position.
pub open spec fn last_pos(events: Seq<Event>, id: u32, n: nat) -> Option<usize>
    decreases n,
{
    if n == 0 {
        None
    } else if events[n - 1].id == Some(id) && events[n - 1].pos == Some(3usize) {
        Some((n - 1) as usize)
    } else {
        last_pos(events, id, (n - 1) as nat)
    }
}

/// Whether element `id` is active after the first `n` events.
pub open spec fn last_active(events: Seq<Event>, id: u32, n: nat) -> bool
    decreases n,
{
    if n == 0 {
        true
    } else {
        match (events[n - 1].id == Some(id), events[n - 1].active) {
            (true, Some(a)) => a,
            _ => last_active(events, id, (n - 1) as nat),
        }
    }
}

/// The keyframes of element `id` in the first `n` events: one for each of its events, with the state
/// that holds from there on.
pub open spec fn keys_of(events: Seq<Event>, id: u32, n: nat) -> Seq<Key>
    decreases n,
{
    if n == 0 {
        Seq::empty()
    } else {
        let before = keys_of(events, id, (n - 1) as nat);
        if events[n - 1].id == Some(id) {
            before.push(
                Key {
                    at: sample_of(events[n - 1]),
                    pos: last_pos(events, id, n),
                    active: last_active(events, id, n),
                },
            )
        } else {
            before
        }
    }
}

/// The keyframes of an element, from the diff-encoded events.
pub fn keyframes(events: &Vec<Event>, id: u32) -> (keys: Vec<Key>)
    ensures
        keys@ == keys_of(events@, id, events@.len()),
{
    let mut keys: Vec<Key> = Vec::new();
    let mut pos: Option<usize> = None;
    let mut active = true;
    let mut n: usize = 0;
    while n < events.len()
        invariant
            n <= events@.len(),
            keys@ == keys_of(events@, id, n as nat),
            pos == last_pos(events@, id, n as nat),
            active == last_active(events@, id, n as nat),
        decreases events@.len() - n,
    {
        let e = events[n];
        if e.id == Some(id) {
            if e.pos == Some(3) {
                pos = Some(n);
            }
            if let Some(a) = e.active {
                active = a;
            }
            let at = match e.sample_pos {
                Some(p) => p,
                None => 0,
            };
            keys.push(Key { at, pos, active });
        }
        n = n + 1;
    }
    keys
}

/// How many of the first `n` events are element `id`'s.
pub open spec fn event_count(events: Seq<Event>, id: u32, n: nat) -> nat
    decreases n,
{
    if n == 0 {
        0
    } else {
        event_count(events, id, (n - 1) as nat) + (if events[n - 1].id == Some(id) {
            1nat
        } else {
            0
        })
    }
}

/// An element has a keyframe for each of its events.
pub proof fn law_key_per_event(events: Seq<Event>, id: u32, n: nat)
    ensures
        keys_of(events, id, n).len() == event_count(events, id, n),
    decreases n,
{
    if n > 0 {
        law_key_per_event(events, id, (n - 1) as nat);
    }
}

/// The keyframes of each object, in manifest order.
pub fn timelines(objects: &Vec<ObjectRef>, events: &Vec<Event>) -> (r: Vec<Vec<Key>>)
    ensures
        r@.len() == objects@.len(),
        forall|i: int|
            0 <= i < objects@.len() ==> (#[trigger] r@[i])@ == keys_of(
                events@,
                objects@[i].id,
                events@.len(),
            ),
{
    let mut r: Vec<Vec<Key>> = Vec::new();
    let mut i: usize = 0;
    while i < objects.len()
        invariant
            i <= objects@.len(),
            r@.len() == i,
            forall|k: int|
                0 <= k < i ==> (#[trigger] r@[k])@ == keys_of(events@, objects@[k].id, events@.len()),
        decreases objects@.len() - i,
    {
        r.push(keyframes(events, objects[i].id));
        i = i + 1;
    }
    r
}

/// The objects to render among the first `n`: those that have events, each with its essence channel and
/// its keyframes.
pub open spec fn rendered_upto(
    objects: Seq<ObjectRef>,
    bed_count: int,
    events: Seq<Event>,
    n: nat,
) -> Seq<(int, Seq<Key>)>
    decreases n,
{
    if n == 0 {
        Seq::empty()
    } else {
        let before = rendered_upto(objects, bed_count, events, (n - 1) as nat);
        let id = objects[n - 1].id;
        let keys = keys_of(events, id, events.len());
        if keys.len() == 0 {
            before
        } else {
            before.push((bed_count + last_object(objects, id, objects.len())->0, keys))
        }
    }
}

/// The objects to render: every object that has events, with its essence channel and its keyframes.
pub fn rendered(objects: &Vec<ObjectRef>, bed_count: usize, events: &Vec<Event>) -> (r: Vec<
    (usize, Vec<Key>),
>)
    requires
        bed_count + objects@.len() <= usize::MAX,
    ensures
        r@.len() == rendered_upto(objects@, bed_count as int, events@, objects@.len()).len(),
        forall|i: int|
            0 <= i < r@.len() ==> ((#[trigger] r@[i]).0 as int, r@[i].1@) == rendered_upto(
                objects@,
                bed_count as int,
                events@,
                objects@.len(),
            )[i] && r@[i].1@.len() > 0 && r@[i].0 < bed_count + objects@.len(),
{
    let mut r: Vec<(usize, Vec<Key>)> = Vec::new();
    let mut i: usize = 0;
    while i < objects.len()
        invariant
            i <= objects@.len(),
            bed_count + objects@.len() <= usize::MAX,
            r@.len() == rendered_upto(objects@, bed_count as int, events@, i as nat).len(),
            forall|k: int|
                0 <= k < r@.len() ==> ((#[trigger] r@[k]).0 as int, r@[k].1@) == rendered_upto(
                    objects@,
                    bed_count as int,
                    events@,
                    i as nat,
                )[k] && r@[k].1@.len() > 0 && r@[k].0 < bed_count + objects@.len(),
        decreases objects@.len() - i,
    {
        let id = objects[i].id;
        let keys = keyframes(events, id);
        proof {
            law_object_has_channel(objects@, i as int);
        }
        if keys.len() > 0 {
            match object_channel(objects, bed_count, id) {
                Some(ch) => {
                    r.push((ch, keys));
                },
                None => {},
            }
        }
        i = i + 1;
    }
    r
}

/// The last sample that one of the first `n` events names.
pub open spec fn last_sample(events: Seq<Event>, n: nat) -> u64
    decreases n,
{
    if n == 0 {
        0
    } else {
        let before = last_sample(events, (n - 1) as nat);
        match events[n - 1].sample_pos {
            Some(p) => if p > before {
                p
            } else {
                before
            },
            None => before,
        }
    }
}

/// The last sample that an event names.
pub fn timeline_end(events: &Vec<Event>) -> (r: u64)
    ensures
        r == last_sample(events@, events@.len()),
{
    let mut end: u64 = 0;
    let mut n: usize = 0;
    while n < events.len()
        invariant
            n <= events@.len(),
            end == last_sample(events@, n as nat),
        decreases events@.len() - n,
    {
        if let Some(p) = events[n].sample_pos {
            if p > end {
                end = p;
            }
        }
        n = n + 1;
    }
    end
}

/// The element ids that the first `n` events name.
pub open spec fn ids_of(events: Seq<Event>, n: nat) -> Seq<u32>
    decreases n,
{
    if n == 0 {
        Seq::empty()
    } else {
        let before = ids_of(events, (n - 1) as nat);
        match events[n - 1].id {
            Some(id) => before.push(id),
            None => before,
        }
    }
}

/// An element's events are counted by its id.
pub proof fn law_ids_count(events: Seq<Event>, id: u32, n: nat)
    ensures
        tally::count_of(ids_of(events, n), id) == event_count(events, id, n),
    decreases n,
{
    if n > 0 {
        law_ids_count(events, id, (n - 1) as nat);
        let before = ids_of(events, (n - 1) as nat);
        if let Some(x) = events[n - 1].id {
            assert(before.push(x).drop_last() =~= before);
        }
    }
}

/// How many events each element has, ids ascending.
pub fn events_per_id(events: &Vec<Event>) -> (counts: Vec<(u32, usize)>)
    ensures
        tally::counts_ok(counts@, ids_of(events@, events@.len())),
{
    let mut ids: Vec<u32> = Vec::new();
    let mut n: usize = 0;
    while n < events.len()
        invariant
            n <= events@.len(),
            ids@ == ids_of(events@, n as nat),
        decreases events@.len() - n,
    {
        if let Some(id) = events[n].id {
            ids.push(id);
        }
        n = n + 1;
    }
    tally(&ids)
}

// ------------------------------------------------------------------ essence

/// The metadata companion: sample rate and a flat, diff-encoded list of per-element events.
pub struct Metadata {
    pub sample_rate: Option<u32>,
    pub events: Vec<Event>,
}

/// Header info for the CAF essence (interleaved PCM, bed channels first then objects, in manifest
/// order).
#[derive(Clone, Copy, PartialEq, Debug)]
pub struct CafInfo {
    /// The sample rate in Hz, as the bits of a double.
    pub sample_rate: u64,
    pub format_id: [u8; 4],
    pub format_flags: u32,
    pub bytes_per_packet: u32,
    pub frames_per_packet: u32,
    pub channels: u32,
    pub bits_per_channel: u32,
    /// Byte offset of the first audio sample (after the `data` chunk's edit-count field).
    pub data_offset: u64,
    /// Number of audio payload bytes (excludes the 4-byte edit count).
    pub data_bytes: u64,
}

impl CafInfo {
    /// Whole packets of payload.
    pub fn frames(&self) -> (n: u64)
        ensures
            n == self.data_bytes / (if self.bytes_per_packet == 0 {
                1
            } else {
                self.bytes_per_packet as u64
            }),
    {
        if self.bytes_per_packet == 0 {
            self.data_bytes
        } else {
            self.data_bytes / self.bytes_per_packet as u64
        }
    }

    /// CAF `lpcm` format flags: bit0 = float, bit1 = little-endian.
    pub fn is_float(&self) -> (b: bool)
        ensures
            b == (self.format_flags % 2 == 1),
    {
        self.format_flags % 2 == 1
    }

    pub fn is_big_endian(&self) -> (b: bool)
        ensures
            b == (self.format_flags / 2 % 2 == 0),
    {
        self.format_flags / 2 % 2 == 0
    }
}

/// Why a file is no usable CAF essence.
#[derive(Clone, Copy, PartialEq, Eq, Structural, Debug)]
pub enum CafError {
    /// It ends in the middle of a header.
    Truncated,
    /// It does not start as a CAF file.
    NotCaf,
    /// It has no `desc` chunk.
    MissingDesc,
    /// Its `data` chunk comes before its `desc` chunk.
    DataBeforeDesc,
    /// A chunk of this type has a negative size.
    NegativeSize(u32),
}

/// The number that `n` bytes at `i` spell out, most significant first.
pub open spec fn be_at(data: Seq<u8>, i: int, n: nat) -> nat
    decreases n,
{
    if n == 0 {
        0
    } else {
        256 * be_at(data, i, (n - 1) as nat) + data[i + n - 1] as nat
    }
}

/// The same as a signed number of 64 bits.
pub open spec fn be_i64(data: Seq<u8>, i: int) -> int {
    let v = be_at(data, i, 8);
    if v < 0x8000_0000_0000_0000 {
        v as int
    } else {
        v - 0x1_0000_0000_0000_0000
    }
}

/// `caff`
pub const MAGIC_CAFF: u32 = 0x63616666;

/// `desc`
pub const CHUNK_DESC: u32 = 0x64657363;

/// `data`
pub const CHUNK_DATA: u32 = 0x64617461;

/// The description at byte `i`.
pub open spec fn desc_at(data: Seq<u8>, i: int) -> CafInfo {
    CafInfo {
        sample_rate: be_at(data, i, 8) as u64,
        format_id: [data[i + 8], data[i + 9], data[i + 10], data[i + 11]],
        format_flags: be_at(data, i + 12, 4) as u32,
        bytes_per_packet: be_at(data, i + 16, 4) as u32,
        frames_per_packet: be_at(data, i + 20, 4) as u32,
        channels: be_at(data, i + 24, 4) as u32,
        bits_per_channel: be_at(data, i + 28, 4) as u32,
        data_offset: 0,
        data_bytes: 0,
    }
}

/// Where the chunk behind a description ends, whose contents start at `body`.
pub open spec fn desc_end(body: int, size: int) -> int {
    if size > 32 {
        body + size
    } else {
        body + 32
    }
}

/// What the `data` chunk with contents at `body` adds to a description. A negative size means that it
/// goes on to the end of the file.
pub open spec fn with_data(desc: CafInfo, body: int, size: int, len: int) -> CafInfo {
    CafInfo {
        data_offset: (body + 4) as u64,
        data_bytes: (if size < 0 {
            len - (body + 4)
        } else if size < 4 {
            0
        } else {
            size - 4
        }) as u64,
        ..desc
    }
}

/// What the chunks from byte `pos` on say, `desc` being the last description before them.
pub open spec fn caf_from(data: Seq<u8>, pos: int, desc: Option<CafInfo>) -> Result<CafInfo, CafError>
    decreases
        (if pos < data.len() {
            data.len() - pos
        } else {
            0
        }),
{
    let len = data.len() as int;
    let kind = be_at(data, pos, 4) as u32;
    let size = be_i64(data, pos + 4);
    let body = pos + 12;
    if pos + 4 > len {
        match desc {
            Some(d) => Ok(d),
            None => Err(CafError::MissingDesc),
        }
    } else if body > len {
        Err(CafError::Truncated)
    } else if kind == CHUNK_DESC {
        if body + 32 > len {
            Err(CafError::Truncated)
        } else {
            caf_from(data, desc_end(body, size), Some(desc_at(data, body)))
        }
    } else if kind == CHUNK_DATA {
        if body + 4 > len {
            Err(CafError::Truncated)
        } else {
            match desc {
                Some(d) => Ok(with_data(d, body, size, len)),
                None => Err(CafError::DataBeforeDesc),
            }
        }
    } else if size < 0 {
        Err(CafError::NegativeSize(kind))
    } else {
        caf_from(data, body + size, desc)
    }
}

/// What a CAF file says of its essence: the magic, version and flags, and chunks up to the data.
pub open spec fn caf_of(data: Seq<u8>) -> Result<CafInfo, CafError> {
    if data.len() < 4 {
        Err(CafError::Truncated)
    } else if be_at(data, 0, 4) as u32 != MAGIC_CAFF {
        Err(CafError::NotCaf)
    } else {
        caf_from(data, 8, None)
    }
}

/// Where a parser stands.
#[derive(Clone, Copy)]
enum CafStage {
    Magic,
    Header,
    Desc { size: i64 },
    Done { outcome: Result<CafInfo, CafError> },
}

/// Parses the CAF file header and `desc`/`data` chunk headers of a file that is read piece by piece.
/// It says which bytes it needs next, and takes them; it needs no samples.
pub struct CafParser {
    stage: CafStage,
    pos: u64,
    len: u64,
    desc: Option<CafInfo>,
}

impl CafParser {
    /// The length of the file.
    pub closed spec fn file_len(&self) -> int {
        self.len as int
    }

    /// What the parse of a file with these bytes will come to.
    pub closed spec fn outcome_for(&self, data: Seq<u8>) -> Result<CafInfo, CafError> {
        match self.stage {
            CafStage::Magic => caf_of(data),
            CafStage::Header => caf_from(data, self.pos as int, self.desc),
            CafStage::Desc { size } => caf_from(
                data,
                desc_end(self.pos as int, size as int),
                Some(desc_at(data, self.pos as int)),
            ),
            CafStage::Done { outcome } => outcome,
        }
    }

    /// What the parse came to, if it is over.
    pub closed spec fn finished(&self) -> Option<Result<CafInfo, CafError>> {
        match self.stage {
            CafStage::Done { outcome } => Some(outcome),
            _ => None,
        }
    }

    /// The bytes that are needed next: from where, and how many.
    pub closed spec fn needed(&self) -> (int, int) {
        match self.stage {
            CafStage::Magic => (0, 4),
            CafStage::Header => (self.pos as int, 12),
            CafStage::Desc { size: _ } => (self.pos as int, 32),
            CafStage::Done { outcome: _ } => (0, 0),
        }
    }

    /// What is needed is in the file.
    pub closed spec fn wf(&self) -> bool {
        &&& self.len <= 0x7fff_ffff_ffff_ffff
        &&& self.needed().0 + self.needed().1 <= self.len
        &&& self.stage is Magic ==> self.pos == 0 && self.desc is None
    }

    /// A measure of the work left.
    pub closed spec fn left(&self) -> int {
        match self.stage {
            CafStage::Magic => 2 * self.len + 3,
            CafStage::Header => 2 * (self.len - self.pos) + 1,
            CafStage::Desc { size: _ } => 2 * (self.len - self.pos) + 2,
            CafStage::Done { outcome: _ } => 0,
        }
    }

    /// A parser for a file of `len` bytes.
    pub fn new(len: u64) -> (p: Self)
        requires
            len <= 0x7fff_ffff_ffff_ffff,
        ensures
            p.wf(),
            p.file_len() == len,
            forall|data: Seq<u8>|
                data.len() == len ==> #[trigger] p.outcome_for(data) == caf_of(data),
    {
        if len < 4 {
            CafParser {
                stage: CafStage::Done { outcome: Err(CafError::Truncated) },
                pos: 0,
                len,
                desc: None,
            }
        } else {
            CafParser { stage: CafStage::Magic, pos: 0, len, desc: None }
        }
    }

    /// The bytes to read next: offset and count. None when the parse is over.
    pub fn need(&self) -> (r: Option<(u64, usize)>)
        requires
            self.wf(),
        ensures
            r is Some == self.finished() is None,
            r matches Some((at, n)) ==> (at as int, n as int) == self.needed() && at + n
                <= self.file_len(),
    {
        match self.stage {
            CafStage::Magic => Some((0, 4)),
            CafStage::Header => Some((self.pos, 12)),
            CafStage::Desc { size: _ } => Some((self.pos, 32)),
            CafStage::Done { outcome: _ } => None,
        }
    }

    /// What the parse came to, once it is over.
    pub fn result(&self) -> (r: Option<Result<CafInfo, CafError>>)
        ensures
            r == self.finished(),
    {
        match self.stage {
            CafStage::Done { outcome } => Some(outcome),
            _ => None,
        }
    }

    /// Moves to the chunk at `pos`, or ends where the file does.
    fn at_chunk(&mut self, pos: u64)
        requires
            old(self).len <= 0x7fff_ffff_ffff_ffff,
            old(self).pos < pos,
        ensures
            final(self).wf(),
            final(self).len == old(self).len,
            final(self).left() >= 0,
            final(self).left() <= 2 * (old(self).len - old(self).pos) || final(self).left() == 0,
            forall|data: Seq<u8>|
                data.len() == old(self).len ==> #[trigger] final(self).outcome_for(data) == caf_from(
                    data,
                    pos as int,
                    old(self).desc,
                ),
    {
        self.pos = pos;
        if pos > self.len || self.len - pos < 4 {
            self.stage = CafStage::Done {
                outcome: match self.desc {
                    Some(d) => Ok(d),
                    None => Err(CafError::MissingDesc),
                },
            };
        } else if self.len - pos < 12 {
            self.stage = CafStage::Done { outcome: Err(CafError::Truncated) };
        } else {
            self.stage = CafStage::Header;
        }
    }

    /// Takes the bytes that were needed.
    pub fn feed(&mut self, bytes: &[u8])
        requires
            old(self).wf(),
            old(self).finished() is None,
            bytes@.len() == old(self).needed().1,
        ensures
            final(self).wf(),
            final(self).file_len() == old(self).file_len(),
            0 <= final(self).left() < old(self).left(),
            forall|data: Seq<u8>|
                data.len() == old(self).file_len() && data.subrange(
                    old(self).needed().0,
                    old(self).needed().0 + old(self).needed().1,
                ) == bytes@ ==> #[trigger] final(self).outcome_for(data) == old(self).outcome_for(
                    data,
                ),
    {
        let ghost need = self.needed();
        let ghost before = *self;
        match self.stage {
            CafStage::Magic => {
                let magic = read_be_u32(bytes, 0);
                if magic != MAGIC_CAFF {
                    self.stage = CafStage::Done { outcome: Err(CafError::NotCaf) };
                } else {
                    self.at_chunk(8);
                }
                proof {
                    assert forall|data: Seq<u8>|
                        data.len() == before.len && data.subrange(0, 4) == bytes@ implies
                        #[trigger] self.outcome_for(data) == before.outcome_for(data) by {
                        lemma_be_sub(data, 0, bytes@, 0, 4);
                    }
                }
            },
            CafStage::Header => {
                self.feed_header(bytes);
            },
            CafStage::Desc { size } => {
                let desc = read_desc(bytes);
                let body = self.pos;
                let next: u64 = if size > 32 {
                    body + size as u64
                } else {
                    body + 32
                };
                self.desc = Some(desc);
                self.at_chunk(next);
                proof {
                    assert forall|data: Seq<u8>|
                        data.len() == before.len && data.subrange(body as int, body + 32) == bytes@ implies
                        #[trigger] self.outcome_for(data) == before.outcome_for(data) by {
                        lemma_desc_sub(data, body as int, bytes@);
                    }
                }
            },
            CafStage::Done { outcome: _ } => {},
        }
    }

    /// Takes a chunk header.
    fn feed_header(&mut self, bytes: &[u8])
        requires
            old(self).wf(),
            old(self).stage is Header,
            bytes@.len() == 12,
        ensures
            final(self).wf(),
            final(self).len == old(self).len,
            0 <= final(self).left() < old(self).left(),
            forall|data: Seq<u8>|
                data.len() == old(self).len && data.subrange(
                    old(self).pos as int,
                    old(self).pos + 12,
                ) == bytes@ ==> #[trigger] final(self).outcome_for(data) == old(self).outcome_for(
                    data,
                ),
    {
        let ghost before = *self;
        let pos = self.pos;
        let len = self.len;
        let kind = read_be_u32(bytes, 0);
        let size = read_be_i64(bytes, 4);
        let body = pos + 12;
        if kind == CHUNK_DESC {
            if len - body < 32 {
                self.stage = CafStage::Done { outcome: Err(CafError::Truncated) };
            } else {
                self.pos = body;
                self.stage = CafStage::Desc { size };
            }
        } else if kind == CHUNK_DATA {
            if len - body < 4 {
                self.stage = CafStage::Done { outcome: Err(CafError::Truncated) };
            } else {
                match self.desc {
                    Some(d) => {
                        let start = body + 4;
                        let data_bytes: u64 = if size < 0 {
                            len - start
                        } else if size < 4 {
                            0
                        } else {
                            size as u64 - 4
                        };
                        self.stage = CafStage::Done {
                            outcome: Ok(CafInfo { data_offset: start, data_bytes, ..d }),
                        };
                    },
                    None => {
                        self.stage = CafStage::Done { outcome: Err(CafError::DataBeforeDesc) };
                    },
                }
            }
        } else if size < 0 {
            self.stage = CafStage::Done { outcome: Err(CafError::NegativeSize(kind)) };
        } else {
            self.at_chunk(body + size as u64);
        }
        proof {
            assert forall|data: Seq<u8>|
                data.len() == before.len && data.subrange(pos as int, pos + 12) == bytes@ implies
                #[trigger] self.outcome_for(data) == before.outcome_for(data) by {
                lemma_be_sub(data, pos as int, bytes@, 0, 4);
                lemma_be_sub(data, pos as int, bytes@, 4, 8);
            }
        }
    }
}

/// The bytes of a piece spell out what they spell out in the file.
proof fn lemma_be_sub(data: Seq<u8>, at: int, piece: Seq<u8>, i: int, n: nat)
    requires
        0 <= at,
        0 <= i,
        i + n <= piece.len(),
        at + piece.len() <= data.len(),
        data.subrange(at, at + piece.len()) == piece,
    ensures
        be_at(data, at + i, n) == be_at(piece, i, n),
    decreases n,
{
    if n > 0 {
        lemma_be_sub(data, at, piece, i, (n - 1) as nat);
        assert(data.subrange(at, at + piece.len())[i + n - 1] == data[at + i + n - 1]);
    }
}

proof fn lemma_desc_sub(data: Seq<u8>, at: int, piece: Seq<u8>)
    requires
        0 <= at,
        piece.len() == 32,
        at + 32 <= data.len(),
        data.subrange(at, at + 32) == piece,
    ensures
        desc_at(data, at) == desc_at(piece, 0),
{
    lemma_be_sub(data, at, piece, 0, 8);
    lemma_be_sub(data, at, piece, 8, 4);
    lemma_be_sub(data, at, piece, 12, 4);
    lemma_be_sub(data, at, piece, 16, 4);
    lemma_be_sub(data, at, piece, 20, 4);
    lemma_be_sub(data, at, piece, 24, 4);
    lemma_be_sub(data, at, piece, 28, 4);
}

/// Four bytes at `i`, most significant first.
fn read_be_u32(b: &[u8], i: usize) -> (v: u32)
    requires
        i + 4 <= b@.len(),
    ensures
        v == be_at(b@, i as int, 4),
{
    assert(b.len() == b@.len());
    reveal_with_fuel(be_at, 5);
    ((b[i] as u32 * 256 + b[i + 1] as u32) * 256 + b[i + 2] as u32) * 256 + b[i + 3] as u32
}

/// Eight bytes at `i`, most significant first.
fn read_be_u64(b: &[u8], i: usize) -> (v: u64)
    requires
        i + 8 <= b@.len(),
    ensures
        v == be_at(b@, i as int, 8),
{
    assert(b.len() == b@.len());
    let hi = read_be_u32(b, i);
    let lo = read_be_u32(b, i + 4);
    proof {
        reveal_with_fuel(be_at, 9);
    }
    hi as u64 * 0x1_0000_0000 + lo as u64
}

/// Eight bytes at `i` as a signed number, most significant first.
fn read_be_i64(b: &[u8], i: usize) -> (v: i64)
    requires
        i + 8 <= b@.len(),
    ensures
        v == be_i64(b@, i as int),
{
    let v = read_be_u64(b, i);
    if v < 0x8000_0000_0000_0000 {
        v as i64
    } else {
        -((0xffff_ffff_ffff_ffff - v) as i64) - 1
    }
}

fn read_desc(b: &[u8]) -> (d: CafInfo)
    requires
        b@.len() == 32,
    ensures
        d == desc_at(b@, 0),
{
    CafInfo {
        sample_rate: read_be_u64(b, 0),
        format_id: [b[8], b[9], b[10], b[11]],
        format_flags: read_be_u32(b, 12),
        bytes_per_packet: read_be_u32(b, 16),
        frames_per_packet: read_be_u32(b, 20),
        channels: read_be_u32(b, 24),
        bits_per_channel: read_be_u32(b, 28),
        data_offset: 0,
        data_bytes: 0,
    }
}

/// Parse the CAF file header and `desc`/`data` chunk headers of a file in memory.
pub fn read_caf_info(data: &[u8]) -> (r: Result<CafInfo, CafError>)
    requires
        data@.len() <= 0x7fff_ffff_ffff_ffff,
    ensures
        r == caf_of(data@),
{
    assert(data.len() == data@.len());
    let mut p = CafParser::new(data.len() as u64);
    loop
        invariant
            p.wf(),
            p.file_len() == data@.len(),
            data@.len() <= usize::MAX,
            p.outcome_for(data@) == caf_of(data@),
        decreases p.left(),
    {
        match p.need() {
            Some((at, n)) => {
                let from = at as usize;
                p.feed(&data[from..from + n]);
            },
            None => {
                match p.result() {
                    Some(r) => {
                        return r;
                    },
                    None => {},
                }
            },
        }
    }
}

} // verus!
