//! Object Audio Metadata (OAMD): where the objects of a programme are.

use crate::bits;
use crate::bits::{BitReader, BitWriter};
use vstd::prelude::*;

verus! {

// ------------------------------------------------------------------ encoding

/// The position codes of one dynamic object at a frame: x from left to right and y from front to back
/// in steps of 1/62, z from floor to ceiling in steps of 1/15.
#[derive(Clone, Copy, PartialEq, Eq, Structural, Debug)]
pub struct ObjectCode {
    pub px: u32,
    pub py: u32,
    pub pz: u32,
}

impl ObjectCode {
    /// The codes fit their fields.
    pub open spec fn ok(self) -> bool {
        self.px < 64 && self.py < 64 && self.pz < 16
    }
}

/// A count less one: 5 bits, with a 7-bit extension when they are all ones.
pub open spec fn count5_bits(v: nat) -> Seq<bool> {
    if v < 31 {
        bits::be(v, 5)
    } else {
        bits::be(31, 5) + bits::be((v - 31) as nat, 7)
    }
}

/// The info block of a bed: active, unity gain, default priority, no table data.
pub open spec fn bed_block() -> Seq<bool> {
    seq![false] + bits::be(0, 2) + seq![true] + seq![false]
}

/// The info block of a dynamic object: active, the last gain reused, default priority; its position,
/// no distance, elevation enabled, a point source, no screen reference, no snapping; no table data.
pub open spec fn object_block(o: ObjectCode) -> Seq<bool> {
    seq![false] + bits::be(3, 2) + seq![true] + bits::be(o.px as nat, 6) + bits::be(o.py as nat, 6) + bits::be(1, 1) + bits::be(
        o.pz as nat,
        4,
    ) + seq![false] + bits::be(1, 4) + bits::be(0, 2) + seq![false] + seq![false] + seq![false]
}

/// The info blocks of all objects.
pub open spec fn object_blocks(objects: Seq<ObjectCode>) -> Seq<bool>
    decreases objects.len(),
{
    if objects.len() == 0 {
        Seq::empty()
    } else {
        object_blocks(objects.drop_last()) + object_block(objects.last())
    }
}

/// An object element with one info block at the frame's start, a ramp over the whole frame, and no
/// reserved data.
pub open spec fn object_element(objects: Seq<ObjectCode>, lfe: bool) -> Seq<bool> {
    bits::be(0, 2) + bits::be(0, 3) + bits::be(0, 6) + bits::be(2, 2) + seq![true] + (if lfe {
        bed_block()
    } else {
        Seq::empty()
    }) + object_blocks(objects)
}

/// How many bits the object element has.
pub open spec fn element_len(n: int, lfe: bool) -> int {
    14 + (if lfe {
        5int
    } else {
        0
    }) + 31 * n
}

/// The number of objects, the LFE bed among them.
pub open spec fn total_objects(n: int, lfe: bool) -> int {
    n + (if lfe {
        1int
    } else {
        0
    })
}

/// The OAMD payload of a programme with dynamic objects only, and perhaps an LFE bed.
pub open spec fn oamd_bits(objects: Seq<ObjectCode>, lfe: bool) -> Seq<bool> {
    bits::be(0, 2) + count5_bits((total_objects(objects.len() as int, lfe) - 1) as nat) + seq![true]
        + seq![lfe] + seq![false] + bits::be(1, 4) + bits::be(1, 4) + bits::var_bits(
        (element_len(objects.len() as int, lfe) - 1) as nat,
        4,
    ) + seq![false] + object_element(objects, lfe)
}

proof fn lemma_block_lens(o: ObjectCode)
    ensures
        bed_block().len() == 5,
        object_block(o).len() == 31,
{
    bits::lemma_be_len(0, 2);
    bits::lemma_be_len(3, 2);
    bits::lemma_be_len(o.px as nat, 6);
    bits::lemma_be_len(o.py as nat, 6);
    bits::lemma_be_len(1, 1);
    bits::lemma_be_len(o.pz as nat, 4);
    bits::lemma_be_len(1, 4);
}

proof fn lemma_object_blocks_len(objects: Seq<ObjectCode>)
    ensures
        object_blocks(objects).len() == 31 * objects.len(),
    decreases objects.len(),
{
    if objects.len() > 0 {
        lemma_object_blocks_len(objects.drop_last());
        lemma_block_lens(objects.last());
    }
}

pub proof fn lemma_element_len(objects: Seq<ObjectCode>, lfe: bool)
    ensures
        object_element(objects, lfe).len() == element_len(objects.len() as int, lfe),
{
    lemma_object_blocks_len(objects);
    lemma_block_lens(ObjectCode { px: 0, py: 0, pz: 0 });
    bits::lemma_be_len(0, 2);
    bits::lemma_be_len(0, 3);
    bits::lemma_be_len(0, 6);
    bits::lemma_be_len(2, 2);
}

/// object_count_bits: 5 bits, with a 7-bit extension when == 0x1F.
fn write_count5(w: &mut BitWriter, count_minus_1: u32)
    requires
        old(w).wf(),
    ensures
        final(w).wf(),
        final(w)@ == old(w)@ + count5_bits(count_minus_1 as nat),
{
    if count_minus_1 < 0x1F {
        w.write(count_minus_1, 5);
    } else {
        w.write(0x1F, 5);
        w.write(count_minus_1 - 0x1F, 7);
        assert(w@ =~= old(w)@ + count5_bits(count_minus_1 as nat));
    }
}

/// variable_bits_max(4, 4) for oa_element_size_bits.
fn write_var_max4(w: &mut BitWriter, value: u32)
    requires
        old(w).wf(),
        value < 4368,
    ensures
        final(w).wf(),
        final(w)@ == old(w)@ + bits::var_bits(value as nat, 4),
{
    proof {
        bits::lemma_two_values();
        bits::lemma_two_add(8, 4);
    }
    w.write_var(value, 4);
}

fn encode_object_info_block(w: &mut BitWriter, o: Option<ObjectCode>)
    requires
        old(w).wf(),
    ensures
        final(w).wf(),
        final(w)@ == old(w)@ + (match o {
            Some(o) => object_block(o),
            None => bed_block(),
        }),
{
    w.bit(0);  // b_object_not_active = 0 (active)
    match o {
        None => {
            w.write(0, 2);  // object_gain_idx: unity
            w.bit(1);  // b_default_object_priority = 1 (no priority bits)
            w.bit(0);  // b_additional_table_data_exists = 0
            assert(w@ =~= old(w)@ + bed_block());
        },
        Some(o) => {
            w.write(3, 2);  // object_gain_idx: reuse last gain
            w.bit(1);  // b_default_object_priority = 1 (no priority bits)
            w.write(o.px, 6);  // pos3D_X_bits
            w.write(o.py, 6);  // pos3D_Y_bits
            w.write(1, 1);  // pos3D_Z_sign_bits
            w.write(o.pz, 4);  // pos3D_Z_bits
            w.bit(0);  // b_object_distance_specified = 0
            w.write(1, 4);  // zone_constraints_idx(3) + b_enable_elevation(1)
            w.write(0, 2);  // object_size_idx = 0b00 (point source)
            w.bit(0);  // b_object_use_screen_ref = 0
            w.bit(0);  // b_object_snap = 0
            w.bit(0);  // b_additional_table_data_exists = 0
            assert(w@ =~= old(w)@ + object_block(o));
        },
    }
}

fn encode_object_element(objects: &[ObjectCode], lfe: bool) -> (w: BitWriter)
    ensures
        w.wf(),
        w@ == object_element(objects@, lfe),
{
    let mut w = BitWriter::new();
    w.write(0, 2);  // sample_offset_code = 0 (no offset)
    w.write(0, 3);  // num_obj_info_blocks_bits = 0: 1 block
    w.write(0, 6);  // block_offset_factor_bits = 0 (start of frame)
    w.write(2, 2);  // ramp_duration_code = 2: 1536-sample ramp
    w.bit(1);  // b_reserved_data_not_present = 1
    if lfe {
        encode_object_info_block(&mut w, None);
    }
    let ghost head = object_element(Seq::<ObjectCode>::empty(), lfe);
    assert(w@ =~= head);
    let mut i: usize = 0;
    assert(objects@.take(0) =~= Seq::<ObjectCode>::empty());
    assert(w@ =~= head + object_blocks(objects@.take(0)));
    while i < objects.len()
        invariant
            i <= objects@.len(),
            w.wf(),
            w@ == head + object_blocks(objects@.take(i as int)),
        decreases objects@.len() - i,
    {
        let ghost before = w@;
        encode_object_info_block(&mut w, Some(objects[i]));
        assert(objects@.take(i + 1).drop_last() =~= objects@.take(i as int));
        i = i + 1;
        assert(w@ =~= head + object_blocks(objects@.take(i as int)));
    }
    assert(objects@.take(i as int) =~= objects@);
    assert(w@ =~= object_element(objects@, lfe));
    w
}

/// Whether an OAMD payload has room for `n` dynamic objects, and perhaps an LFE bed.
pub fn objects_fit(n: usize, lfe: bool) -> (b: bool)
    ensures
        b == (1 <= total_objects(n as int, lfe) <= 159 && element_len(n as int, lfe) <= 4368),
{
    if n > 159 {
        return false;
    }
    let bed: usize = if lfe {
        1
    } else {
        0
    };
    1 <= n + bed && n + bed <= 159 && 14 + 5 * bed + 31 * n <= 4368
}

/// Encode an OAMD payload for a "dynamic object-only + LFE bed" program: object 0 is the LFE bed,
/// the others are the dynamic objects. Single info block at frame start. Returns whole bytes (the
/// EMDF payload body).
pub fn encode_oamd(objects: &[ObjectCode], lfe: bool) -> (out: Vec<u8>)
    requires
        1 <= total_objects(objects@.len() as int, lfe) <= 159,
        element_len(objects@.len() as int, lfe) <= 4368,
    ensures
        out@ == bits::pack(oamd_bits(objects@, lfe)),
{
    let object_count: usize = if lfe {
        objects.len() + 1
    } else {
        objects.len()
    };
    let mut w = BitWriter::new();
    w.write(0, 2);  // oa_md_version_bits
    write_count5(&mut w, (object_count - 1) as u32);  // object_count_bits (=count-1)
    w.bit(1);  // b_dyn_object_only_program
    w.bit(
        if lfe {
            1
        } else {
            0
        },
    );  // b_lfe_present
    w.bit(0);  // b_alternate_object_data_present
    w.write(1, 4);  // oa_element_count_bits = 1 element
    w.write(1, 4);  // oa_element_id_idx = 1 (object element)
    let body = encode_object_element(objects, lfe);
    proof {
        lemma_element_len(objects@, lfe);
    }
    let (bytes, bit_len) = body.snapshot();
    write_var_max4(&mut w, (bit_len - 1) as u32);  // oa_element_size_bits
    w.bit(0);  // b_discard_unknown_element
    proof {
        bits::lemma_pack_bits(body@);
        assert(bits::bits_of(bytes@).take(bit_len as int) =~= body@);
    }
    w.copy_bits(&bytes, bit_len);
    assert(w@ =~= oamd_bits(objects@, lfe));
    w.into_bytes()
}

// ------------------------------------------------------------------ object info blocks

/// The gain of an object: its index, and the gain code that index 2 announces.
#[derive(Clone, Copy, PartialEq, Eq, Structural, Debug)]
pub struct GainInfo {
    pub idx: u32,
    pub code: Option<u32>,
}

/// The priority of an object.
#[derive(Clone, Copy, PartialEq, Eq, Structural, Debug)]
pub enum Priority {
    Default,
    Code(u32),
}

/// The position of an object, as such or as a difference to the last one.
#[derive(Clone, Copy, PartialEq, Eq, Structural, Debug)]
pub enum PositionCode {
    Absolute { px: u32, py: u32, zsign: u32, pz: u32 },
    Difference { dx: u32, dy: u32, dz: u32 },
}

/// The distance of an object.
#[derive(Clone, Copy, PartialEq, Eq, Structural, Debug)]
pub enum Distance {
    Unspecified,
    Infinite,
    Code(u32),
}

/// The size of an object: its index, and the code that index 1 or 2 announces.
#[derive(Clone, Copy, PartialEq, Eq, Structural, Debug)]
pub struct SizeInfo {
    pub idx: u32,
    pub code: Option<u32>,
}

/// The screen reference of an object.
#[derive(Clone, Copy, PartialEq, Eq, Structural, Debug)]
pub enum ScreenRef {
    Unused,
    Factors(u32, u32),
}

/// How an object is rendered.
#[derive(Clone, Copy, PartialEq, Eq, Structural, Debug)]
pub struct RenderInfo {
    pub position: Option<PositionCode>,
    pub distance: Option<Distance>,
    /// Zone constraints and elevation flag.
    pub zone: Option<u32>,
    pub size: Option<SizeInfo>,
    pub screen: Option<ScreenRef>,
    pub snap: bool,
}

/// One object info block.
#[derive(Clone, Copy, PartialEq, Eq, Structural, Debug)]
pub struct ObjectInfo {
    pub active: bool,
    pub gain: Option<GainInfo>,
    pub priority: Option<Priority>,
    pub render: Option<RenderInfo>,
    /// Bytes of additional table data.
    pub table_bytes: u32,
}

pub open spec fn num(s: Seq<bool>, p: int, n: nat) -> u32 {
    bits::field(s, p, n) as u32
}

/// A gain at `p`, and where it ends.
pub open spec fn gain_at(s: Seq<bool>, p: int) -> (GainInfo, int) {
    let idx = num(s, p, 2);
    if idx == 2 {
        (GainInfo { idx, code: Some(num(s, p + 2, 6)) }, p + 8)
    } else {
        (GainInfo { idx, code: None }, p + 2)
    }
}

pub open spec fn priority_at(s: Seq<bool>, p: int) -> (Priority, int) {
    if bits::bit(s, p) {
        (Priority::Default, p + 1)
    } else {
        (Priority::Code(num(s, p + 1, 5)), p + 6)
    }
}

/// Gain and priority, each as far as it is present.
pub open spec fn gain_priority_at(s: Seq<bool>, p: int, with_gain: bool, with_priority: bool) -> (
    (Option<GainInfo>, Option<Priority>),
    int,
) {
    let p1 = if with_gain {
        gain_at(s, p).1
    } else {
        p
    };
    let gain = if with_gain {
        Some(gain_at(s, p).0)
    } else {
        None
    };
    if with_priority {
        ((gain, Some(priority_at(s, p1).0)), priority_at(s, p1).1)
    } else {
        ((gain, None), p1)
    }
}

/// The basic info of an active object. The first block has all of it; a later one says what it has.
#[verifier::opaque]
pub open spec fn basic_at(s: Seq<bool>, p: int, first: bool) -> (
    (Option<GainInfo>, Option<Priority>),
    int,
) {
    if first {
        gain_priority_at(s, p, true, true)
    } else {
        let status = num(s, p, 2);
        if status == 1 {
            gain_priority_at(s, p + 2, true, true)
        } else if status == 3 {
            let info = num(s, p + 2, 2);
            gain_priority_at(s, p + 4, info >= 2, info % 2 == 1)
        } else {
            ((None, None), p + 2)
        }
    }
}

/// A position code. Only a block that is not the first may hold a difference.
pub open spec fn position_code_at(s: Seq<bool>, p: int, first: bool) -> (PositionCode, int) {
    let q = if first {
        p
    } else {
        p + 1
    };
    if !first && bits::bit(s, p) {
        (
            PositionCode::Difference { dx: num(s, q, 3), dy: num(s, q + 3, 3), dz: num(s, q + 6, 3) },
            q + 9,
        )
    } else {
        (
            PositionCode::Absolute {
                px: num(s, q, 6),
                py: num(s, q + 6, 6),
                zsign: num(s, q + 12, 1),
                pz: num(s, q + 13, 4),
            },
            q + 17,
        )
    }
}

pub open spec fn distance_at(s: Seq<bool>, p: int) -> (Distance, int) {
    if !bits::bit(s, p) {
        (Distance::Unspecified, p + 1)
    } else if bits::bit(s, p + 1) {
        (Distance::Infinite, p + 2)
    } else {
        (Distance::Code(num(s, p + 2, 4)), p + 6)
    }
}

pub open spec fn size_at(s: Seq<bool>, p: int) -> (SizeInfo, int) {
    let idx = num(s, p, 2);
    if idx == 1 {
        (SizeInfo { idx, code: Some(num(s, p + 2, 5)) }, p + 7)
    } else if idx == 2 {
        (SizeInfo { idx, code: Some(num(s, p + 2, 15)) }, p + 17)
    } else {
        (SizeInfo { idx, code: None }, p + 2)
    }
}

pub open spec fn screen_at(s: Seq<bool>, p: int) -> (ScreenRef, int) {
    if bits::bit(s, p) {
        (ScreenRef::Factors(num(s, p + 1, 3), num(s, p + 4, 2)), p + 6)
    } else {
        (ScreenRef::Unused, p + 1)
    }
}

/// Where each part of the render info ends, when `info` says which parts are present.
pub open spec fn zone_pos(s: Seq<bool>, p: int, first: bool, info: u32) -> int {
    if info % 2 == 1 {
        distance_at(s, position_code_at(s, p, first).1).1
    } else {
        p
    }
}

pub open spec fn size_pos(p: int, info: u32) -> int {
    if info / 2 % 2 == 1 {
        p + 4
    } else {
        p
    }
}

pub open spec fn screen_pos(s: Seq<bool>, p: int, info: u32) -> int {
    if info / 4 % 2 == 1 {
        size_at(s, p).1
    } else {
        p
    }
}

pub open spec fn snap_pos(s: Seq<bool>, p: int, info: u32) -> int {
    if info / 8 % 2 == 1 {
        screen_at(s, p).1
    } else {
        p
    }
}

/// The render info at `p`, with the parts that the low four bits of `info` name.
pub open spec fn render_parts_at(s: Seq<bool>, p: int, first: bool, info: u32) -> (RenderInfo, int) {
    let p1 = zone_pos(s, p, first, info);
    let p2 = size_pos(p1, info);
    let p3 = screen_pos(s, p2, info);
    let p4 = snap_pos(s, p3, info);
    (
        RenderInfo {
            position: if info % 2 == 1 {
                Some(position_code_at(s, p, first).0)
            } else {
                None
            },
            distance: if info % 2 == 1 {
                Some(distance_at(s, position_code_at(s, p, first).1).0)
            } else {
                None
            },
            zone: if info / 2 % 2 == 1 {
                Some(num(s, p1, 4))
            } else {
                None
            },
            size: if info / 4 % 2 == 1 {
                Some(size_at(s, p2).0)
            } else {
                None
            },
            screen: if info / 8 % 2 == 1 {
                Some(screen_at(s, p3).0)
            } else {
                None
            },
            snap: bits::bit(s, p4),
        },
        p4 + 1,
    )
}

/// The render info of an active object that is no bed.
#[verifier::opaque]
pub open spec fn render_at(s: Seq<bool>, p: int, first: bool) -> (Option<RenderInfo>, int) {
    if first {
        let r = render_parts_at(s, p, first, 15);
        (Some(r.0), r.1)
    } else {
        let status = num(s, p, 2);
        if status == 1 {
            let r = render_parts_at(s, p + 2, first, 15);
            (Some(r.0), r.1)
        } else if status == 3 {
            let r = render_parts_at(s, p + 6, first, num(s, p + 2, 4));
            (Some(r.0), r.1)
        } else {
            (None, p + 2)
        }
    }
}

/// Additional table data: its bytes, and where it ends.
#[verifier::opaque]
pub open spec fn table_at(s: Seq<bool>, p: int) -> (u32, int) {
    if bits::bit(s, p) {
        let n = bits::field(s, p + 1, 4) + 1;
        (n as u32, p + 5 + 8 * n)
    } else {
        (0, p + 1)
    }
}

/// The object info block at `p`, and where it ends.
pub open spec fn info_block_at(s: Seq<bool>, p: int, first: bool, is_bed: bool) -> (ObjectInfo, int) {
    if bits::bit(s, p) {
        let t = table_at(s, p + 1);
        (
            ObjectInfo { active: false, gain: None, priority: None, render: None, table_bytes: t.0 },
            t.1,
        )
    } else {
        let b = basic_at(s, p + 1, first);
        let r = if is_bed {
            (None, b.1)
        } else {
            render_at(s, b.1, first)
        };
        let t = table_at(s, r.1);
        (
            ObjectInfo {
                active: true,
                gain: b.0.0,
                priority: b.0.1,
                render: r.0,
                table_bytes: t.0,
            },
            t.1,
        )
    }
}

fn read_gain(r: &mut BitReader) -> (g: GainInfo)
    requires
        old(r).pos <= usize::MAX - 100,
    ensures
        final(r).data@ == old(r).data@,
        (g, final(r).pos as int) == gain_at(old(r).bits(), old(r).pos as int),
        final(r).pos <= old(r).pos + 8,
{
    let idx = r.read(2);
    if idx == 2 {
        GainInfo { idx, code: Some(r.read(6)) }
    } else {
        GainInfo { idx, code: None }
    }
}

fn read_priority(r: &mut BitReader) -> (p: Priority)
    requires
        old(r).pos <= usize::MAX - 100,
    ensures
        final(r).data@ == old(r).data@,
        (p, final(r).pos as int) == priority_at(old(r).bits(), old(r).pos as int),
        final(r).pos <= old(r).pos + 6,
{
    if r.read_bit() {
        Priority::Default
    } else {
        Priority::Code(r.read(5))
    }
}

fn read_gain_priority(r: &mut BitReader, with_gain: bool, with_priority: bool) -> (b: (
    Option<GainInfo>,
    Option<Priority>,
))
    requires
        old(r).pos <= usize::MAX - 200,
    ensures
        final(r).data@ == old(r).data@,
        (b, final(r).pos as int) == gain_priority_at(
            old(r).bits(),
            old(r).pos as int,
            with_gain,
            with_priority,
        ),
        final(r).pos <= old(r).pos + 14,
{
    let gain = if with_gain {
        Some(read_gain(r))
    } else {
        None
    };
    let priority = if with_priority {
        Some(read_priority(r))
    } else {
        None
    };
    (gain, priority)
}

fn read_basic(r: &mut BitReader, first: bool) -> (b: (Option<GainInfo>, Option<Priority>))
    requires
        old(r).pos <= usize::MAX - 300,
    ensures
        final(r).data@ == old(r).data@,
        (b, final(r).pos as int) == basic_at(old(r).bits(), old(r).pos as int, first),
        old(r).pos <= final(r).pos <= old(r).pos + 18,
{
    proof {
        reveal(basic_at);
    }
    if first {
        return read_gain_priority(r, true, true);
    }
    let status = r.read(2);
    if status == 1 {
        read_gain_priority(r, true, true)
    } else if status == 3 {
        let info = r.read(2);
        read_gain_priority(r, info >= 2, info % 2 == 1)
    } else {
        (None, None)
    }
}

fn read_position(r: &mut BitReader, first: bool) -> (p: (PositionCode, Distance))
    requires
        old(r).pos <= usize::MAX - 200,
    ensures
        final(r).data@ == old(r).data@,
        ({
            let c = position_code_at(old(r).bits(), old(r).pos as int, first);
            &&& p.0 == c.0
            &&& (p.1, final(r).pos as int) == distance_at(old(r).bits(), c.1)
        }),
        final(r).pos <= old(r).pos + 24,
{
    let differential = if first {
        false
    } else {
        r.read_bit()
    };
    let code = if differential {
        let dx = r.read(3);
        let dy = r.read(3);
        let dz = r.read(3);
        PositionCode::Difference { dx, dy, dz }
    } else {
        let px = r.read(6);
        let py = r.read(6);
        let zsign = r.read(1);
        let pz = r.read(4);
        PositionCode::Absolute { px, py, zsign, pz }
    };
    let distance = if r.read_bit() {
        if r.read_bit() {
            Distance::Infinite
        } else {
            Distance::Code(r.read(4))
        }
    } else {
        Distance::Unspecified
    };
    (code, distance)
}

fn read_size(r: &mut BitReader) -> (z: SizeInfo)
    requires
        old(r).pos <= usize::MAX - 100,
    ensures
        final(r).data@ == old(r).data@,
        (z, final(r).pos as int) == size_at(old(r).bits(), old(r).pos as int),
        final(r).pos <= old(r).pos + 17,
{
    let idx = r.read(2);
    if idx == 1 {
        SizeInfo { idx, code: Some(r.read(5)) }
    } else if idx == 2 {
        SizeInfo { idx, code: Some(r.read(15)) }
    } else {
        SizeInfo { idx, code: None }
    }
}

fn read_screen(r: &mut BitReader) -> (c: ScreenRef)
    requires
        old(r).pos <= usize::MAX - 100,
    ensures
        final(r).data@ == old(r).data@,
        (c, final(r).pos as int) == screen_at(old(r).bits(), old(r).pos as int),
        final(r).pos <= old(r).pos + 6,
{
    if r.read_bit() {
        let a = r.read(3);
        let b = r.read(2);
        ScreenRef::Factors(a, b)
    } else {
        ScreenRef::Unused
    }
}

fn read_render_parts(r: &mut BitReader, first: bool, info: u32) -> (i: RenderInfo)
    requires
        old(r).pos <= usize::MAX - 300,
    ensures
        final(r).data@ == old(r).data@,
        (i, final(r).pos as int) == render_parts_at(
            old(r).bits(),
            old(r).pos as int,
            first,
            info,
        ),
        final(r).pos <= old(r).pos + 60,
{
    let (position, distance) = if info % 2 == 1 {
        let (position, distance) = read_position(r, first);
        (Some(position), Some(distance))
    } else {
        (None, None)
    };
    let zone = if info / 2 % 2 == 1 {
        Some(r.read(4))
    } else {
        None
    };
    let size = if info / 4 % 2 == 1 {
        Some(read_size(r))
    } else {
        None
    };
    let screen = if info / 8 % 2 == 1 {
        Some(read_screen(r))
    } else {
        None
    };
    let snap = r.read_bit();
    RenderInfo { position, distance, zone, size, screen, snap }
}

fn read_render(r: &mut BitReader, first: bool) -> (i: Option<RenderInfo>)
    requires
        old(r).pos <= usize::MAX - 400,
    ensures
        final(r).data@ == old(r).data@,
        (i, final(r).pos as int) == render_at(old(r).bits(), old(r).pos as int, first),
        old(r).pos <= final(r).pos <= old(r).pos + 70,
{
    proof {
        reveal(render_at);
    }
    if first {
        return Some(read_render_parts(r, first, 15));
    }
    let status = r.read(2);
    if status == 1 {
        Some(read_render_parts(r, first, 15))
    } else if status == 3 {
        let info = r.read(4);
        Some(read_render_parts(r, first, info))
    } else {
        None
    }
}

fn read_table(r: &mut BitReader) -> (n: u32)
    requires
        old(r).pos <= usize::MAX - 300,
    ensures
        final(r).data@ == old(r).data@,
        (n, final(r).pos as int) == table_at(old(r).bits(), old(r).pos as int),
        old(r).pos <= final(r).pos <= old(r).pos + 133,
{
    proof {
        reveal(table_at);
    }
    if r.read_bit() {
        let n = r.read(4) + 1;
        r.read(n * 8);
        n
    } else {
        0
    }
}

/// Reads one object info block.
pub fn read_object_info_block(r: &mut BitReader, first: bool, is_bed: bool) -> (i: ObjectInfo)
    requires
        old(r).pos <= usize::MAX - 1000,
    ensures
        final(r).data@ == old(r).data@,
        (i, final(r).pos as int) == info_block_at(
            old(r).bits(),
            old(r).pos as int,
            first,
            is_bed,
        ),
        old(r).pos < final(r).pos <= old(r).pos + 250,
{
    if r.read_bit() {
        let table_bytes = read_table(r);
        return ObjectInfo {
            active: false,
            gain: None,
            priority: None,
            render: None,
            table_bytes,
        };
    }
    let (gain, priority) = read_basic(r, first);
    let render = if is_bed {
        None
    } else {
        read_render(r, first)
    };
    let table_bytes = read_table(r);
    ObjectInfo { active: true, gain, priority, render, table_bytes }
}

// ------------------------------------------------------------------ payloads

/// How an object info block is timed.
#[derive(Clone, Copy, PartialEq, Eq, Structural, Debug)]
pub struct BlockUpdate {
    pub offset_factor: u32,
    pub ramp_code: u32,
    pub ramp: Ramp,
}

/// The ramp duration that ramp code 3 announces.
#[derive(Clone, Copy, PartialEq, Eq, Structural, Debug)]
pub enum Ramp {
    Implied,
    Index(u32),
    Duration(u32),
}

/// One element of an OAMD payload.
pub struct OamdElement {
    pub id: u32,
    /// Bits of the element less one.
    pub size: u32,
    pub discard: bool,
    pub sample_offset_code: u32,
    pub blocks: Vec<BlockUpdate>,
    pub reserved_absent: bool,
    /// The info blocks, object by object.
    pub objects: Vec<ObjectInfo>,
    /// Bit position behind the last info block.
    pub used_end: usize,
    /// Bit position behind the element, by its size.
    pub end: usize,
}

/// The contents of an element.
#[verifier::ext_equal]
pub struct ElementView {
    pub id: u32,
    pub size: u32,
    pub discard: bool,
    pub sample_offset_code: u32,
    pub blocks: Seq<BlockUpdate>,
    pub reserved_absent: bool,
    pub objects: Seq<ObjectInfo>,
    pub used_end: int,
    pub end: int,
}

impl View for OamdElement {
    type V = ElementView;

    open spec fn view(&self) -> ElementView {
        ElementView {
            id: self.id,
            size: self.size,
            discard: self.discard,
            sample_offset_code: self.sample_offset_code,
            blocks: self.blocks@,
            reserved_absent: self.reserved_absent,
            objects: self.objects@,
            used_end: self.used_end as int,
            end: self.end as int,
        }
    }
}

/// Every field of an OAMD payload.
pub struct OamdDump {
    pub version: u32,
    pub object_count: usize,
    pub dyn_only: bool,
    pub lfe: bool,
    pub alt: bool,
    pub elements: Vec<OamdElement>,
}

/// The head of an OAMD payload: version, object count, dynamic-objects-only flag, LFE flag, alternate
/// data flag, element count.
#[derive(Clone, Copy, PartialEq, Eq, Structural, Debug)]
pub struct OamdHead {
    pub version: u32,
    pub object_count: usize,
    pub dyn_only: bool,
    pub lfe: bool,
    pub alt: bool,
    pub element_count: u32,
}

impl OamdHead {
    /// Objects that are beds: the LFE one, or none.
    pub open spec fn beds(self) -> int {
        if self.lfe {
            1
        } else {
            0
        }
    }
}

pub open spec fn count5_at(s: Seq<bool>, p: int) -> (nat, int) {
    let v = bits::field(s, p, 5);
    if v == 31 {
        (v + bits::field(s, p + 5, 7), p + 12)
    } else {
        (v, p + 5)
    }
}

/// The head of the payload at `p`, and where it ends.
pub open spec fn head_at(s: Seq<bool>, p: int) -> (OamdHead, int) {
    let (n, q) = count5_at(s, p + 2);
    let dyn_only = bits::bit(s, q);
    let q2 = if dyn_only {
        q + 2
    } else {
        q + 1
    };
    (
        OamdHead {
            version: num(s, p, 2),
            object_count: (n + 1) as usize,
            dyn_only,
            lfe: dyn_only && bits::bit(s, q + 1),
            alt: bits::bit(s, q2),
            element_count: num(s, q2 + 1, 4),
        },
        q2 + 5,
    )
}

pub open spec fn block_update_at(s: Seq<bool>, p: int) -> (BlockUpdate, int) {
    let offset_factor = num(s, p, 6);
    let ramp_code = num(s, p + 6, 2);
    if ramp_code == 3 {
        if bits::bit(s, p + 8) {
            (BlockUpdate { offset_factor, ramp_code, ramp: Ramp::Index(num(s, p + 9, 4)) }, p + 13)
        } else {
            (
                BlockUpdate { offset_factor, ramp_code, ramp: Ramp::Duration(num(s, p + 9, 11)) },
                p + 20,
            )
        }
    } else {
        (BlockUpdate { offset_factor, ramp_code, ramp: Ramp::Implied }, p + 8)
    }
}

/// The first `n` block updates from `p` on.
pub open spec fn block_updates_at(s: Seq<bool>, p: int, n: nat) -> (Seq<BlockUpdate>, int)
    decreases n,
{
    if n == 0 {
        (Seq::empty(), p)
    } else {
        let before = block_updates_at(s, p, (n - 1) as nat);
        let b = block_update_at(s, before.1);
        (before.0.push(b.0), b.1)
    }
}

/// The first `k` info blocks from `p` on: `blocks` for each object, the first `beds` objects being
/// beds.
pub open spec fn infos_at(s: Seq<bool>, p: int, blocks: int, beds: int, k: nat) -> (
    Seq<ObjectInfo>,
    int,
)
    decreases k,
{
    if k == 0 {
        (Seq::empty(), p)
    } else {
        let before = infos_at(s, p, blocks, beds, (k - 1) as nat);
        let i = info_block_at(s, before.1, (k - 1) % blocks == 0, (k - 1) / blocks < beds);
        (before.0.push(i.0), i.1)
    }
}

/// The element at `p`, of a payload with `count` objects of which `beds` are beds.
pub open spec fn element_at(s: Seq<bool>, p: int, count: int, beds: int) -> ElementView {
    let (size, q) = bits::var_at(s, p + 4, 4, 4);
    let n = bits::field(s, q + 3, 3) + 1;
    let b = block_updates_at(s, q + 6, n);
    let i = infos_at(s, b.1 + 1, n as int, beds, (count * n) as nat);
    ElementView {
        id: num(s, p, 4),
        size: size as u32,
        discard: bits::bit(s, q),
        sample_offset_code: num(s, q + 1, 2),
        blocks: b.0,
        reserved_absent: bits::bit(s, b.1),
        objects: i.0,
        used_end: i.1,
        end: q + size + 1,
    }
}

/// The first `n` elements from `p` on. Each starts where the size of the one before it says.
pub open spec fn elements_at(s: Seq<bool>, p: int, count: int, beds: int, n: nat) -> Seq<ElementView>
    decreases n,
{
    if n == 0 {
        Seq::empty()
    } else {
        let before = elements_at(s, p, count, beds, (n - 1) as nat);
        before.push(element_at(s, elements_end(p, before), count, beds))
    }
}

pub open spec fn elements_end(p: int, elements: Seq<ElementView>) -> int {
    if elements.len() == 0 {
        p
    } else {
        elements.last().end
    }
}

/// Bit positions that the sizes declared in a payload of `len` bytes can lead to fit a machine word.
pub open spec fn addressable(len: nat) -> bool {
    8 * len + 0x1000_0000 <= usize::MAX
}

fn read_count5(r: &mut BitReader) -> (v: u32)
    requires
        old(r).pos <= usize::MAX - 100,
    ensures
        final(r).data@ == old(r).data@,
        (v as nat, final(r).pos as int) == count5_at(old(r).bits(), old(r).pos as int),
        v <= 158,
        final(r).pos <= old(r).pos + 12,
{
    let v = r.read(5);
    if v == 0x1F {
        v + r.read(7)
    } else {
        v
    }
}

fn read_head(r: &mut BitReader) -> (h: OamdHead)
    requires
        old(r).pos <= usize::MAX - 1000,
    ensures
        final(r).data@ == old(r).data@,
        (h, final(r).pos as int) == head_at(old(r).bits(), old(r).pos as int),
        1 <= h.object_count <= 159,
        h.element_count < 16,
        final(r).pos <= old(r).pos + 30,
{
    let version = r.read(2);
    let object_count = read_count5(r) as usize + 1;
    let dyn_only = r.read_bit();
    let lfe = if dyn_only {
        r.read_bit()
    } else {
        false
    };
    let alt = r.read_bit();
    let element_count = r.read(4);
    OamdHead { version, object_count, dyn_only, lfe, alt, element_count }
}

fn read_block_updates(r: &mut BitReader, n: usize) -> (blocks: Vec<BlockUpdate>)
    requires
        n <= 8,
        old(r).pos <= usize::MAX - 1000,
    ensures
        final(r).data@ == old(r).data@,
        (blocks@, final(r).pos as int) == block_updates_at(
            old(r).bits(),
            old(r).pos as int,
            n as nat,
        ),
        final(r).pos <= old(r).pos + 20 * n,
{
    let ghost s = r.bits();
    let ghost p = r.pos as int;
    let mut blocks: Vec<BlockUpdate> = Vec::new();
    let mut i: usize = 0;
    while i < n
        invariant
            i <= n <= 8,
            p <= usize::MAX - 1000,
            s == bits::bits_of(r.data@),
            r.data@ == old(r).data@,
            (blocks@, r.pos as int) == block_updates_at(s, p, i as nat),
            r.pos <= p + 20 * i,
        decreases n - i,
    {
        let offset_factor = r.read(6);
        let ramp_code = r.read(2);
        let ramp = if ramp_code == 3 {
            if r.read_bit() {
                Ramp::Index(r.read(4))
            } else {
                Ramp::Duration(r.read(11))
            }
        } else {
            Ramp::Implied
        };
        blocks.push(BlockUpdate { offset_factor, ramp_code, ramp });
        i = i + 1;
    }
    blocks
}

fn read_infos(r: &mut BitReader, count: usize, n: usize, beds: usize) -> (infos: Vec<ObjectInfo>)
    requires
        1 <= n <= 8,
        count <= 159,
        old(r).pos <= usize::MAX - 1000000,
    ensures
        final(r).data@ == old(r).data@,
        (infos@, final(r).pos as int) == infos_at(
            old(r).bits(),
            old(r).pos as int,
            n as int,
            beds as int,
            (count * n) as nat,
        ),
        final(r).pos <= old(r).pos + 400000,
        infos@.len() == count * n,
{
    let ghost s = r.bits();
    let ghost p = r.pos as int;
    let mut infos: Vec<ObjectInfo> = Vec::new();
    assert(count * n <= 159 * 8) by (nonlinear_arith)
        requires
            count <= 159,
            n <= 8,
    ;
    let total: usize = count * n;
    let mut k: usize = 0;
    while k < total
        invariant
            k <= total <= 1272,
            1 <= n <= 8,
            p <= usize::MAX - 1000000,
            s == bits::bits_of(r.data@),
            r.data@ == old(r).data@,
            (infos@, r.pos as int) == infos_at(s, p, n as int, beds as int, k as nat),
            r.pos <= p + 250 * k,
            infos@.len() == k,
        decreases total - k,
    {
        let info = read_object_info_block(r, k % n == 0, k / n < beds);
        infos.push(info);
        k = k + 1;
    }
    infos
}

fn read_element(r: &mut BitReader, h: &OamdHead) -> (e: OamdElement)
    requires
        1 <= h.object_count <= 159,
        old(r).pos <= usize::MAX - 0x20_0000,
    ensures
        final(r).data@ == old(r).data@,
        e@ == element_at(
            old(r).bits(),
            old(r).pos as int,
            h.object_count as int,
            h.beds(),
        ),
        final(r).pos == e.end,
        e.end <= old(r).pos + 0x12_0100,
        e.blocks@.len() >= 1,
        e.objects@.len() == h.object_count * e.blocks@.len(),
{
    let ghost s = r.bits();
    let ghost p = r.pos as int;
    let beds: usize = if h.lfe {
        1
    } else {
        0
    };
    let id = r.read(4);
    let size = r.read_var(4, 4);
    proof {
        bits::lemma_var_nibbles(s, p + 4);
    }
    let end = r.pos + size as usize + 1;
    let discard = r.read_bit();
    let sample_offset_code = r.read(2);
    let n = r.read(3) as usize + 1;
    let blocks = read_block_updates(r, n);
    proof {
        lemma_block_updates_len(s, r.pos as int, n as nat);
        lemma_block_updates_len(s, bits::var_at(s, p + 4, 4, 4).1 + 6, n as nat);
    }
    let reserved_absent = r.read_bit();
    let objects = read_infos(r, h.object_count, n, beds);
    let used_end = r.pos;
    r.seek(end);
    let e = OamdElement {
        id,
        size,
        discard,
        sample_offset_code,
        blocks,
        reserved_absent,
        objects,
        used_end,
        end,
    };
    assert(e@ == element_at(s, p, h.object_count as int, h.beds()));
    e
}

proof fn lemma_block_updates_len(s: Seq<bool>, p: int, n: nat)
    ensures
        block_updates_at(s, p, n).0.len() == n,
    decreases n,
{
    if n > 0 {
        lemma_block_updates_len(s, p, (n - 1) as nat);
    }
}

/// The payload that a dump shows.
pub open spec fn dump_of(d: OamdDump, s: Seq<bool>, p: int) -> bool {
    let (h, q) = head_at(s, p);
    &&& d.version == h.version
    &&& d.object_count == h.object_count
    &&& d.dyn_only == h.dyn_only
    &&& d.lfe == h.lfe
    &&& d.alt == h.alt
    &&& d.elements@.map_values(|e: OamdElement| e@) == elements_at(
        s,
        q,
        h.object_count as int,
        h.beds(),
        h.element_count as nat,
    )
}

/// Reads an OAMD payload at the reader's position.
fn read_oamd(r: &mut BitReader) -> (d: OamdDump)
    requires
        old(r).pos + 0x200_0000 <= usize::MAX,
    ensures
        dump_of(d, old(r).bits(), old(r).pos as int),
        forall|i: int|
            0 <= i < d.elements@.len() ==> (#[trigger] d.elements@[i]).blocks@.len() >= 1
                && d.elements@[i].objects@.len() == d.object_count
                * d.elements@[i].blocks@.len(),
        1 <= d.object_count <= 159,
        d.elements@.len() < 16,
{
    let ghost s = r.bits();
    let h = read_head(r);
    let ghost q = r.pos as int;
    let mut elements: Vec<OamdElement> = Vec::new();
    let mut n: u32 = 0;
    assert(elements@.map_values(|e: OamdElement| e@) =~= Seq::<ElementView>::empty());
    while n < h.element_count
        invariant
            n <= h.element_count < 16,
            1 <= h.object_count <= 159,
            s == bits::bits_of(r.data@),
            elements@.len() == n,
            elements@.map_values(|e: OamdElement| e@) == elements_at(
                s,
                q,
                h.object_count as int,
                h.beds(),
                n as nat,
            ),
            r.pos == elements_end(q, elements@.map_values(|e: OamdElement| e@)),
            r.pos <= q + n * 0x12_0100,
            q + 0x180_0000 <= usize::MAX,
            forall|i: int|
                0 <= i < elements@.len() ==> (#[trigger] elements@[i]).blocks@.len() >= 1
                    && elements@[i].objects@.len() == h.object_count * elements@[i].blocks@.len(),
        decreases h.element_count - n,
    {
        let ghost before = elements@.map_values(|e: OamdElement| e@);
        let e = read_element(r, &h);
        elements.push(e);
        assert(elements@.map_values(|e: OamdElement| e@) =~= before.push(e@));
        n = n + 1;
    }
    OamdDump {
        version: h.version,
        object_count: h.object_count,
        dyn_only: h.dyn_only,
        lfe: h.lfe,
        alt: h.alt,
        elements,
    }
}

/// Every field of a raw OAMD payload (starting at oa_md_version), for comparing payloads. An element
/// was understood when its info blocks end where its size says.
pub fn dump_oamd_verbose(payload: &[u8]) -> (d: OamdDump)
    requires
        addressable(payload@.len()),
    ensures
        dump_of(d, bits::bits_of(payload@), 0),
{
    let mut r = BitReader::new(payload);
    read_oamd(&mut r)
}

/// A decoded object position (raw codes).
#[derive(Clone, Copy, PartialEq, Eq, Structural, Debug)]
pub struct DecodedObject {
    pub px: u32,
    pub py: u32,
    pub pz: u32,
    pub is_bed: bool,
}

/// Decoded OAMD summary: object count and per-object positions.
#[derive(Debug, Clone)]
pub struct DecodedOamd {
    pub object_count: usize,
    pub bed_count: usize,
    pub objects: Vec<DecodedObject>,
}

/// What an info block says of the object's position. A bed is at no position; a difference is not
/// followed up.
pub open spec fn position_of(i: ObjectInfo, is_bed: bool) -> Option<DecodedObject> {
    let at_zero = DecodedObject { px: 0, py: 0, pz: 0, is_bed };
    match i.render {
        Some(
            RenderInfo { position: Some(PositionCode::Absolute { px, py, zsign: _, pz }), .. },
        ) => Some(DecodedObject { px, py, pz, is_bed }),
        Some(RenderInfo { position: Some(PositionCode::Difference { .. }), .. }) => Some(at_zero),
        _ => if is_bed {
            Some(at_zero)
        } else {
            None
        },
    }
}

/// The positions that the first `k` info blocks of an element say.
pub open spec fn positions_in(infos: Seq<ObjectInfo>, blocks: int, beds: int, k: nat) -> Seq<
    DecodedObject,
>
    decreases k,
{
    if k == 0 {
        Seq::empty()
    } else {
        let before = positions_in(infos, blocks, beds, (k - 1) as nat);
        match position_of(infos[k - 1], (k - 1) / blocks < beds) {
            Some(o) => before.push(o),
            None => before,
        }
    }
}

/// The positions that the first `n` elements say.
pub open spec fn positions(elements: Seq<ElementView>, beds: int, n: nat) -> Seq<DecodedObject>
    decreases n,
{
    if n == 0 {
        Seq::empty()
    } else {
        let e = elements[n - 1];
        positions(elements, beds, (n - 1) as nat) + positions_in(
            e.objects,
            e.blocks.len() as int,
            beds,
            e.objects.len(),
        )
    }
}

/// The summary of the payload at `p` of `s`.
pub open spec fn summary_of(d: DecodedOamd, s: Seq<bool>, p: int) -> bool {
    let (h, q) = head_at(s, p);
    let elements = elements_at(s, q, h.object_count as int, h.beds(), h.element_count as nat);
    &&& d.object_count == h.object_count
    &&& d.bed_count == h.beds()
    &&& d.objects@ == positions(elements, h.beds(), elements.len())
}

fn decode_object_info_block(i: &ObjectInfo, is_bed: bool) -> (o: Option<DecodedObject>)
    ensures
        o == position_of(*i, is_bed),
{
    let at_zero = DecodedObject { px: 0, py: 0, pz: 0, is_bed };
    match i.render {
        Some(render) => match render.position {
            Some(PositionCode::Absolute { px, py, zsign: _, pz }) => Some(
                DecodedObject { px, py, pz, is_bed },
            ),
            Some(PositionCode::Difference { .. }) => Some(at_zero),
            None => if is_bed {
                Some(at_zero)
            } else {
                None
            },
        },
        None => if is_bed {
            Some(at_zero)
        } else {
            None
        },
    }
}

/// Appends the positions that an element says.
fn push_positions(objects: &mut Vec<DecodedObject>, e: &OamdElement, beds: usize)
    requires
        e.blocks@.len() >= 1,
    ensures
        final(objects)@ == old(objects)@ + positions_in(
            e.objects@,
            e.blocks@.len() as int,
            beds as int,
            e.objects@.len(),
        ),
{
    let n = e.blocks.len();
    let ghost before = objects@;
    let mut k: usize = 0;
    assert(objects@ =~= before + positions_in(e.objects@, n as int, beds as int, 0));
    while k < e.objects.len()
        invariant
            k <= e.objects@.len(),
            n == e.blocks@.len(),
            n >= 1,
            objects@ == before + positions_in(e.objects@, n as int, beds as int, k as nat),
        decreases e.objects@.len() - k,
    {
        if let Some(o) = decode_object_info_block(&e.objects[k], k / n < beds) {
            objects.push(o);
        }
        k = k + 1;
        assert(objects@ =~= before + positions_in(e.objects@, n as int, beds as int, k as nat));
    }
}

/// Decodes an OAMD payload at the reader's position.
pub fn decode_oamd(r: &mut BitReader) -> (d: DecodedOamd)
    requires
        old(r).pos + 0x200_0000 <= usize::MAX,
    ensures
        summary_of(d, old(r).bits(), old(r).pos as int),
{
    let dump = read_oamd(r);
    let bed_count: usize = if dump.lfe {
        1
    } else {
        0
    };
    let ghost views = dump.elements@.map_values(|e: OamdElement| e@);
    let mut objects: Vec<DecodedObject> = Vec::new();
    let mut n: usize = 0;
    while n < dump.elements.len()
        invariant
            n <= dump.elements@.len(),
            views == dump.elements@.map_values(|e: OamdElement| e@),
            forall|i: int|
                0 <= i < dump.elements@.len() ==> (#[trigger] dump.elements@[i]).blocks@.len() >= 1,
            objects@ == positions(views, bed_count as int, n as nat),
        decreases dump.elements@.len() - n,
    {
        assert(views[n as int] == dump.elements@[n as int]@);
        push_positions(&mut objects, &dump.elements[n], bed_count);
        n = n + 1;
    }
    DecodedOamd { object_count: dump.object_count, bed_count, objects }
}

// ------------------------------------------------------------------ what is encoded decodes

/// The first of two pieces, and a number of `n` bits behind it.
pub proof fn lemma_then_num(s: Seq<bool>, p: int, a: Seq<bool>, v: nat, n: nat)
    requires
        bits::has(s, p, a + bits::be(v, n)),
        v < bits::two(n),
    ensures
        bits::has(s, p, a),
        bits::field(s, p + a.len(), n) == v,
        bits::be(v, n).len() == n,
{
    bits::lemma_has_split(s, p, a, bits::be(v, n));
    bits::lemma_field_small(s, p + a.len(), v, n);
    bits::lemma_be_len(v, n);
}

/// The first of two pieces, and a flag behind it.
pub proof fn lemma_then_bit(s: Seq<bool>, p: int, a: Seq<bool>, b: bool)
    requires
        bits::has(s, p, a + seq![b]),
    ensures
        bits::has(s, p, a),
        bits::bit(s, p + a.len()) == b,
{
    bits::lemma_has_split(s, p, a, seq![b]);
    bits::lemma_has_bit(s, p + a.len(), b);
}

proof fn lemma_object_fields(s: Seq<bool>, p: int, o: ObjectCode)
    requires
        o.ok(),
        bits::has(s, p, object_block(o)),
    ensures
        !bits::bit(s, p),
        bits::field(s, p + 1, 2) == 3,
        bits::bit(s, p + 3),
        bits::field(s, p + 4, 6) == o.px,
        bits::field(s, p + 10, 6) == o.py,
        bits::field(s, p + 17, 4) == o.pz,
        !bits::bit(s, p + 21),
        bits::field(s, p + 26, 2) == 0,
        !bits::bit(s, p + 28),
        !bits::bit(s, p + 30),
{
    let a0 = seq![false];
    let a1 = a0 + bits::be(3, 2);
    let a2 = a1 + seq![true];
    let a3 = a2 + bits::be(o.px as nat, 6);
    let a4 = a3 + bits::be(o.py as nat, 6);
    let a5 = a4 + bits::be(1, 1);
    let a6 = a5 + bits::be(o.pz as nat, 4);
    let a7 = a6 + seq![false];
    let a8 = a7 + bits::be(1, 4);
    let a9 = a8 + bits::be(0, 2);
    let a10 = a9 + seq![false];
    let a11 = a10 + seq![false];
    bits::lemma_two_values();
    bits::lemma_be_len(3, 2);
    bits::lemma_be_len(o.px as nat, 6);
    bits::lemma_be_len(o.py as nat, 6);
    bits::lemma_be_len(1, 1);
    bits::lemma_be_len(o.pz as nat, 4);
    bits::lemma_be_len(1, 4);
    bits::lemma_be_len(0, 2);
    lemma_then_bit(s, p, a11, false);
    lemma_then_bit(s, p, a10, false);
    lemma_then_bit(s, p, a9, false);
    lemma_then_num(s, p, a8, 0, 2);
    lemma_then_num(s, p, a7, 1, 4);
    lemma_then_bit(s, p, a6, false);
    lemma_then_num(s, p, a5, o.pz as nat, 4);
    lemma_then_num(s, p, a4, 1, 1);
    lemma_then_num(s, p, a3, o.py as nat, 6);
    lemma_then_num(s, p, a2, o.px as nat, 6);
    lemma_then_bit(s, p, a1, true);
    lemma_then_num(s, p, a0, 3, 2);
    bits::lemma_has_bit(s, p, false);
}

/// A dynamic object's info block reads back.
proof fn lemma_object_block(s: Seq<bool>, p: int, o: ObjectCode)
    requires
        o.ok(),
        bits::has(s, p, object_block(o)),
    ensures
        info_block_at(s, p, true, false).1 == p + 31,
        position_of(info_block_at(s, p, true, false).0, false) == Some(
            DecodedObject { px: o.px, py: o.py, pz: o.pz, is_bed: false },
        ),
{
    lemma_object_fields(s, p, o);
    assert(basic_at(s, p + 1, true).1 == p + 4) by {
        reveal(basic_at);
    }
    assert(render_parts_at(s, p + 4, true, 15).1 == p + 30);
    assert(render_at(s, p + 4, true) == (
        Some(render_parts_at(s, p + 4, true, 15).0),
        p + 30,
    )) by {
        reveal(render_at);
    }
    assert(table_at(s, p + 30).1 == p + 31) by {
        reveal(table_at);
    }
}

/// A bed's info block reads back.
proof fn lemma_bed_block(s: Seq<bool>, p: int)
    requires
        bits::has(s, p, bed_block()),
    ensures
        info_block_at(s, p, true, true).1 == p + 5,
        position_of(info_block_at(s, p, true, true).0, true) == Some(
            DecodedObject { px: 0, py: 0, pz: 0, is_bed: true },
        ),
{
    let a0 = seq![false];
    let a1 = a0 + bits::be(0, 2);
    let a2 = a1 + seq![true];
    bits::lemma_two_values();
    bits::lemma_be_len(0, 2);
    lemma_then_bit(s, p, a2, false);
    lemma_then_bit(s, p, a1, true);
    lemma_then_num(s, p, a0, 0, 2);
    bits::lemma_has_bit(s, p, false);
    assert(basic_at(s, p + 1, true).1 == p + 4) by {
        reveal(basic_at);
    }
    assert(table_at(s, p + 4).1 == p + 5) by {
        reveal(table_at);
    }
}

/// The positions of a programme: the LFE bed, and the objects.
pub open spec fn expected(objects: Seq<ObjectCode>, lfe: bool) -> Seq<DecodedObject> {
    (if lfe {
        seq![DecodedObject { px: 0, py: 0, pz: 0, is_bed: true }]
    } else {
        Seq::empty()
    }) + objects.map_values(
        |o: ObjectCode| DecodedObject { px: o.px, py: o.py, pz: o.pz, is_bed: false },
    )
}

pub open spec fn all_ok(objects: Seq<ObjectCode>) -> bool {
    forall|i: int| 0 <= i < objects.len() ==> (#[trigger] objects[i]).ok()
}

/// The info blocks of the objects read back.
proof fn lemma_infos(s: Seq<bool>, p: int, objects: Seq<ObjectCode>, lfe: bool)
    requires
        all_ok(objects),
        bits::has(
            s,
            p,
            (if lfe {
                bed_block()
            } else {
                Seq::empty()
            }) + object_blocks(objects),
        ),
    ensures
        ({
            let k = total_objects(objects.len() as int, lfe) as nat;
            let beds = if lfe {
                1int
            } else {
                0
            };
            let i = infos_at(s, p, 1, beds, k);
            &&& i.0.len() == k
            &&& i.1 == p + element_len(objects.len() as int, lfe) - 14
            &&& positions_in(i.0, 1, beds, k) == expected(objects, lfe)
        }),
    decreases objects.len(),
{
    let k = total_objects(objects.len() as int, lfe) as nat;
    let beds = if lfe {
        1int
    } else {
        0
    };
    let head = if lfe {
        bed_block()
    } else {
        Seq::<bool>::empty()
    };
    lemma_block_lens(ObjectCode { px: 0, py: 0, pz: 0 });
    if objects.len() == 0 {
        assert(head + object_blocks(objects) =~= head);
        assert(infos_at(s, p, 1, beds, 0) == (Seq::<ObjectInfo>::empty(), p));
        assert(positions_in(infos_at(s, p, 1, beds, 0).0, 1, beds, 0) =~= Seq::empty());
        if lfe {
            lemma_bed_block(s, p);
            let i = infos_at(s, p, 1, beds, 1);
            assert(i.0 =~= seq![info_block_at(s, p, true, true).0]);
            assert(positions_in(i.0, 1, beds, 0) =~= Seq::empty());
            assert(positions_in(i.0, 1, beds, 1) =~= expected(objects, lfe));
        } else {
            assert(expected(objects, lfe) =~= Seq::empty());
        }
    } else {
        let front = objects.drop_last();
        let o = objects.last();
        let m = (k - 1) as nat;
        assert(o == objects[objects.len() - 1]);
        assert(head + object_blocks(objects) =~= (head + object_blocks(front)) + object_block(o));
        bits::lemma_has_split(s, p, head + object_blocks(front), object_block(o));
        lemma_object_blocks_len(front);
        assert forall|i: int| 0 <= i < front.len() implies (#[trigger] front[i]).ok() by {
            assert(front[i] == objects[i]);
        }
        lemma_infos(s, p, front, lfe);
        let before = infos_at(s, p, 1, beds, m);
        let all = infos_at(s, p, 1, beds, k);
        lemma_object_block(s, before.1, o);
        assert((k - 1) % 1 == 0 && (k - 1) / 1 == k - 1);
        assert(all.0 =~= before.0.push(info_block_at(s, before.1, true, false).0));
        lemma_positions_ext(before.0, all.0, 1, beds, m);
        assert(expected(objects, lfe) =~= expected(front, lfe).push(
            DecodedObject { px: o.px, py: o.py, pz: o.pz, is_bed: false },
        ));
    }
}

proof fn lemma_positions_ext(
    a: Seq<ObjectInfo>,
    b: Seq<ObjectInfo>,
    blocks: int,
    beds: int,
    k: nat,
)
    requires
        k <= a.len(),
        k <= b.len(),
        forall|i: int| 0 <= i < k ==> #[trigger] a[i] == b[i],
    ensures
        positions_in(a, blocks, beds, k) == positions_in(b, blocks, beds, k),
    decreases k,
{
    if k > 0 {
        lemma_positions_ext(a, b, blocks, beds, (k - 1) as nat);
        assert(a[k - 1] == b[k - 1]);
    }
}

/// The object element reads back.
proof fn lemma_element(s: Seq<bool>, p: int, objects: Seq<ObjectCode>, lfe: bool)
    requires
        all_ok(objects),
        1 <= total_objects(objects.len() as int, lfe) <= 159,
        element_len(objects.len() as int, lfe) <= 4368,
        bits::has(
            s,
            p,
            bits::be(1, 4) + bits::var_bits((element_len(objects.len() as int, lfe) - 1) as nat, 4) + seq![false]
                + object_element(objects, lfe),
        ),
    ensures
        ({
            let beds = if lfe {
                1int
            } else {
                0
            };
            let e = element_at(s, p, total_objects(objects.len() as int, lfe), beds);
            &&& e.blocks.len() == 1
            &&& positions_in(e.objects, 1, beds, e.objects.len()) == expected(objects, lfe)
        }),
{
    let n = element_len(objects.len() as int, lfe);
    let v = (n - 1) as nat;
    let count = total_objects(objects.len() as int, lfe);
    let beds = if lfe {
        1int
    } else {
        0
    };
    let head = if lfe {
        bed_block()
    } else {
        Seq::<bool>::empty()
    };
    let size = bits::be(1, 4) + bits::var_bits(v, 4);
    let tail = head + object_blocks(objects);
    let b0 = bits::be(0, 2);
    let b1 = b0 + bits::be(0, 3);
    let b2 = b1 + bits::be(0, 6);
    let b3 = b2 + bits::be(2, 2);
    let b4 = b3 + seq![true];
    bits::lemma_two_values();
    bits::lemma_be_len(1, 4);
    bits::lemma_be_len(0, 2);
    bits::lemma_be_len(0, 3);
    bits::lemma_be_len(0, 6);
    bits::lemma_be_len(2, 2);
    assert(object_element(objects, lfe) =~= b4 + tail);
    bits::lemma_has_split(s, p, size + seq![false], object_element(objects, lfe));
    lemma_then_bit(s, p, size, false);
    bits::lemma_has_split(s, p, bits::be(1, 4), bits::var_bits(v, 4));
    assert(bits::var_fits(v, 4)) by {
        bits::lemma_two_add(8, 4);
    }
    bits::law_var_roundtrip(s, p + 4, v, 4, 4);
    let q = p + size.len();
    assert(bits::var_at(s, p + 4, 4, 4) == (v, q));
    bits::lemma_has_split(s, q + 1, b4, tail);
    lemma_then_bit(s, q + 1, b3, true);
    lemma_then_num(s, q + 1, b2, 2, 2);
    lemma_then_num(s, q + 1, b1, 0, 6);
    lemma_then_num(s, q + 1, b0, 0, 3);
    assert(bits::field(s, q + 3, 3) == 0);
    assert(bits::field(s, q + 6 + 6, 2) == 2);
    let u = block_updates_at(s, q + 6, 1);
    assert(block_updates_at(s, q + 6, 0) == (Seq::<BlockUpdate>::empty(), q + 6));
    assert(u.1 == q + 14 && u.0.len() == 1);
    lemma_infos(s, q + 15, objects, lfe);
    assert(count * 1 == count);
}

/// What `encode_oamd` writes reads back, wherever the payload stands.
pub proof fn lemma_oamd_read(s: Seq<bool>, p: int, objects: Seq<ObjectCode>, lfe: bool)
    requires
        all_ok(objects),
        1 <= total_objects(objects.len() as int, lfe) <= 159,
        element_len(objects.len() as int, lfe) <= 4368,
        bits::has(s, p, oamd_bits(objects, lfe)),
    ensures
        ({
            let (h, q) = head_at(s, p);
            let elements = elements_at(
                s,
                q,
                h.object_count as int,
                h.beds(),
                h.element_count as nat,
            );
            &&& h.object_count == total_objects(objects.len() as int, lfe)
            &&& h.lfe == lfe
            &&& positions(elements, h.beds(), elements.len()) == expected(objects, lfe)
        }),
{
    let count = total_objects(objects.len() as int, lfe);
    let v = (count - 1) as nat;
    let beds = if lfe {
        1int
    } else {
        0
    };
    let size = (element_len(objects.len() as int, lfe) - 1) as nat;
    let a0 = bits::be(0, 2);
    let a1 = a0 + count5_bits(v);
    let a2 = a1 + seq![true];
    let a3 = a2 + seq![lfe];
    let a4 = a3 + seq![false];
    let a5 = a4 + bits::be(1, 4);
    let element = bits::be(1, 4) + bits::var_bits(size, 4) + seq![false] + object_element(objects, lfe);
    assert(oamd_bits(objects, lfe) =~= a5 + element);
    bits::lemma_two_values();
    bits::lemma_be_len(0, 2);
    bits::lemma_be_len(1, 4);
    bits::lemma_has_split(s, p, a5, element);
    lemma_then_num(s, p, a4, 1, 4);
    lemma_then_bit(s, p, a3, false);
    lemma_then_bit(s, p, a2, lfe);
    lemma_then_bit(s, p, a1, true);
    bits::lemma_has_split(s, p, a0, count5_bits(v));
    lemma_count5(s, p + 2, v);
    let q = p + a5.len();
    assert(head_at(s, p).1 == q);
    lemma_element(s, q, objects, lfe);
    let elements = elements_at(s, q, count, beds, 1);
    assert(elements_at(s, q, count, beds, 0) =~= Seq::<ElementView>::empty());
    assert(elements =~= seq![element_at(s, q, count, beds)]);
    assert(positions(elements, beds, 0) =~= Seq::<DecodedObject>::empty());
    assert(positions(elements, beds, 1) =~= expected(objects, lfe));
}

/// What `encode_oamd` writes, decoding gives back: the object count, the beds and every position,
/// wherever the payload stands.
pub proof fn law_oamd_roundtrip(
    s: Seq<bool>,
    p: int,
    objects: Seq<ObjectCode>,
    lfe: bool,
    d: DecodedOamd,
)
    requires
        all_ok(objects),
        1 <= total_objects(objects.len() as int, lfe) <= 159,
        element_len(objects.len() as int, lfe) <= 4368,
        bits::has(s, p, oamd_bits(objects, lfe)),
        summary_of(d, s, p),
    ensures
        d.object_count == total_objects(objects.len() as int, lfe),
        d.bed_count == (if lfe {
            1int
        } else {
            0
        }),
        d.objects@ == expected(objects, lfe),
{
    lemma_oamd_read(s, p, objects, lfe);
}

proof fn lemma_count5(s: Seq<bool>, p: int, v: nat)
    requires
        v <= 158,
        bits::has(s, p, count5_bits(v)),
    ensures
        count5_at(s, p) == (v, p + count5_bits(v).len()),
{
    bits::lemma_two_values();
    if v < 31 {
        bits::lemma_be_len(v, 5);
        bits::lemma_field_small(s, p, v, 5);
    } else {
        bits::lemma_be_len(31, 5);
        bits::lemma_be_len((v - 31) as nat, 7);
        bits::lemma_has_split(s, p, bits::be(31, 5), bits::be((v - 31) as nat, 7));
        bits::lemma_field_small(s, p, 31, 5);
        bits::lemma_field_small(s, p + 5, (v - 31) as nat, 7);
    }
}

} // verus!
