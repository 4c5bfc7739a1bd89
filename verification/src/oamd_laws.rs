//! Object metadata reads back field by field: what a writer puts down, the reader finds, for every value
//! of every field.

use crate::bits;
use crate::oamd;
use crate::oamd::{
    BlockUpdate, DecodedObject, Distance, ElementView, GainInfo, ObjectInfo, OamdHead, PositionCode,
    Priority, Ramp, RenderInfo, ScreenRef, SizeInfo,
};
use crate::passes_laws;
use vstd::prelude::*;

verus! {

/// A number in `n` bits, and something behind it.
proof fn lemma_num(s: Seq<bool>, p: int, v: nat, n: nat, rest: Seq<bool>)
    requires
        bits::has(s, p, bits::be(v, n) + rest),
        v < bits::two(n),
    ensures
        bits::field(s, p, n) == v,
        bits::has(s, p + n, rest),
{
    bits::lemma_be_len(v, n);
    bits::lemma_has_split(s, p, bits::be(v, n), rest);
    bits::lemma_field_small(s, p, v, n);
}

/// A flag, and something behind it.
proof fn lemma_flag(s: Seq<bool>, p: int, b: bool, rest: Seq<bool>)
    requires
        bits::has(s, p, seq![b] + rest),
    ensures
        bits::bit(s, p) == b,
        bits::has(s, p + 1, rest),
{
    bits::lemma_has_split(s, p, seq![b], rest);
    bits::lemma_has_bit(s, p, b);
}

proof fn lemma_alone(s: Seq<bool>, p: int, a: Seq<bool>)
    requires
        bits::has(s, p, a),
    ensures
        bits::has(s, p, a + Seq::<bool>::empty()),
{
    assert(a + Seq::<bool>::empty() =~= a);
}

proof fn lemma_widths()
    ensures
        bits::two(1) == 2,
        bits::two(2) == 4,
        bits::two(3) == 8,
        bits::two(4) == 16,
        bits::two(5) == 32,
        bits::two(6) == 64,
        bits::two(7) == 128,
        bits::two(11) == 2048,
        bits::two(15) == 32768,
{
    reveal_with_fuel(bits::two, 16);
}

// ------------------------------------------------------------------ parts of an info block

pub open spec fn gain_ok(g: GainInfo) -> bool {
    &&& g.idx < 4
    &&& (g.code is Some) == (g.idx == 2)
    &&& g.code matches Some(c) ==> c < 64
}

/// A gain: two bits of index, and six bits of code behind index 2.
pub open spec fn gain_bits(g: GainInfo) -> Seq<bool> {
    bits::be(g.idx as nat, 2) + (match g.code {
        Some(c) => bits::be(c as nat, 6),
        None => Seq::empty(),
    })
}

/// Every gain reads back, with its explicit code where it has one.
pub proof fn law_gain(s: Seq<bool>, p: int, g: GainInfo)
    requires
        gain_ok(g),
        bits::has(s, p, gain_bits(g)),
    ensures
        oamd::gain_at(s, p) == (g, p + gain_bits(g).len()),
{
    lemma_widths();
    bits::lemma_be_len(g.idx as nat, 2);
    match g.code {
        Some(c) => {
            bits::lemma_be_len(c as nat, 6);
            lemma_num(s, p, g.idx as nat, 2, bits::be(c as nat, 6));
            lemma_alone(s, p + 2, bits::be(c as nat, 6));
            lemma_num(s, p + 2, c as nat, 6, Seq::empty());
        },
        None => {
            lemma_num(s, p, g.idx as nat, 2, Seq::empty());
        },
    }
}

pub open spec fn priority_ok(x: Priority) -> bool {
    x matches Priority::Code(c) ==> c < 32
}

/// A priority: a flag for the default one, or a clear flag and five bits of code.
pub open spec fn priority_bits(x: Priority) -> Seq<bool> {
    match x {
        Priority::Default => seq![true],
        Priority::Code(c) => seq![false] + bits::be(c as nat, 5),
    }
}

/// Every priority reads back.
pub proof fn law_priority(s: Seq<bool>, p: int, x: Priority)
    requires
        priority_ok(x),
        bits::has(s, p, priority_bits(x)),
    ensures
        oamd::priority_at(s, p) == (x, p + priority_bits(x).len()),
{
    lemma_widths();
    match x {
        Priority::Default => {
            lemma_alone(s, p, seq![true]);
            lemma_flag(s, p, true, Seq::empty());
        },
        Priority::Code(c) => {
            bits::lemma_be_len(c as nat, 5);
            lemma_flag(s, p, false, bits::be(c as nat, 5));
            lemma_alone(s, p + 1, bits::be(c as nat, 5));
            lemma_num(s, p + 1, c as nat, 5, Seq::empty());
        },
    }
}

pub open spec fn position_ok(x: PositionCode, first: bool) -> bool {
    match x {
        PositionCode::Absolute { px, py, zsign, pz } => px < 64 && py < 64 && zsign < 2 && pz < 16,
        PositionCode::Difference { dx, dy, dz } => !first && dx < 8 && dy < 8 && dz < 8,
    }
}

/// A position: behind the first block a flag for a difference; three numbers, and a sign for z where
/// they are no differences.
pub open spec fn position_bits(x: PositionCode, first: bool) -> Seq<bool> {
    let tag = if first {
        Seq::empty()
    } else {
        seq![x is Difference]
    };
    tag + match x {
        PositionCode::Absolute { px, py, zsign, pz } => bits::be(px as nat, 6) + (bits::be(
            py as nat,
            6,
        ) + (bits::be(zsign as nat, 1) + bits::be(pz as nat, 4))),
        PositionCode::Difference { dx, dy, dz } => bits::be(dx as nat, 3) + (bits::be(dy as nat, 3)
            + bits::be(dz as nat, 3)),
    }
}

/// Every position reads back.
pub proof fn law_position(s: Seq<bool>, p: int, x: PositionCode, first: bool)
    requires
        position_ok(x, first),
        bits::has(s, p, position_bits(x, first)),
    ensures
        oamd::position_code_at(s, p, first) == (x, p + position_bits(x, first).len()),
{
    lemma_widths();
    let body = match x {
        PositionCode::Absolute { px, py, zsign, pz } => bits::be(px as nat, 6) + (bits::be(
            py as nat,
            6,
        ) + (bits::be(zsign as nat, 1) + bits::be(pz as nat, 4))),
        PositionCode::Difference { dx, dy, dz } => bits::be(dx as nat, 3) + (bits::be(dy as nat, 3)
            + bits::be(dz as nat, 3)),
    };
    let q = if first {
        p
    } else {
        p + 1
    };
    if first {
        assert(position_bits(x, first) =~= body);
    } else {
        lemma_flag(s, p, x is Difference, body);
    }
    match x {
        PositionCode::Absolute { px, py, zsign, pz } => {
            let z = bits::be(pz as nat, 4);
            let sz = bits::be(zsign as nat, 1) + z;
            let y = bits::be(py as nat, 6) + sz;
            bits::lemma_be_len(px as nat, 6);
            bits::lemma_be_len(py as nat, 6);
            bits::lemma_be_len(zsign as nat, 1);
            bits::lemma_be_len(pz as nat, 4);
            lemma_num(s, q, px as nat, 6, y);
            lemma_num(s, q + 6, py as nat, 6, sz);
            lemma_num(s, q + 12, zsign as nat, 1, z);
            lemma_alone(s, q + 13, z);
            lemma_num(s, q + 13, pz as nat, 4, Seq::empty());
        },
        PositionCode::Difference { dx, dy, dz } => {
            let z = bits::be(dz as nat, 3);
            let y = bits::be(dy as nat, 3) + z;
            bits::lemma_be_len(dx as nat, 3);
            bits::lemma_be_len(dy as nat, 3);
            bits::lemma_be_len(dz as nat, 3);
            lemma_num(s, q, dx as nat, 3, y);
            lemma_num(s, q + 3, dy as nat, 3, z);
            lemma_alone(s, q + 6, z);
            lemma_num(s, q + 6, dz as nat, 3, Seq::empty());
        },
    }
}

pub open spec fn distance_ok(x: Distance) -> bool {
    x matches Distance::Code(c) ==> c < 16
}

/// A distance: a flag that there is one, a flag that it is infinite, or four bits of code.
pub open spec fn distance_bits(x: Distance) -> Seq<bool> {
    match x {
        Distance::Unspecified => seq![false],
        Distance::Infinite => seq![true] + seq![true],
        Distance::Code(c) => seq![true] + (seq![false] + bits::be(c as nat, 4)),
    }
}

/// Every distance reads back.
pub proof fn law_distance(s: Seq<bool>, p: int, x: Distance)
    requires
        distance_ok(x),
        bits::has(s, p, distance_bits(x)),
    ensures
        oamd::distance_at(s, p) == (x, p + distance_bits(x).len()),
{
    lemma_widths();
    match x {
        Distance::Unspecified => {
            lemma_alone(s, p, seq![false]);
            lemma_flag(s, p, false, Seq::empty());
        },
        Distance::Infinite => {
            lemma_flag(s, p, true, seq![true]);
            lemma_alone(s, p + 1, seq![true]);
            lemma_flag(s, p + 1, true, Seq::empty());
        },
        Distance::Code(c) => {
            let n = bits::be(c as nat, 4);
            bits::lemma_be_len(c as nat, 4);
            lemma_flag(s, p, true, seq![false] + n);
            lemma_flag(s, p + 1, false, n);
            lemma_alone(s, p + 2, n);
            lemma_num(s, p + 2, c as nat, 4, Seq::empty());
        },
    }
}

pub open spec fn size_ok(x: SizeInfo) -> bool {
    &&& x.idx < 4
    &&& (x.code is Some) == (x.idx == 1 || x.idx == 2)
    &&& x.code matches Some(c) ==> c < (if x.idx == 1 {
        32u32
    } else {
        32768u32
    })
}

/// A size: two bits of index, five bits of code behind index 1, three times five behind index 2.
pub open spec fn size_bits(x: SizeInfo) -> Seq<bool> {
    bits::be(x.idx as nat, 2) + (match x.code {
        Some(c) => bits::be(
            c as nat,
            if x.idx == 1 {
                5
            } else {
                15
            },
        ),
        None => Seq::empty(),
    })
}

/// Every size reads back.
pub proof fn law_size(s: Seq<bool>, p: int, x: SizeInfo)
    requires
        size_ok(x),
        bits::has(s, p, size_bits(x)),
    ensures
        oamd::size_at(s, p) == (x, p + size_bits(x).len()),
{
    lemma_widths();
    bits::lemma_be_len(x.idx as nat, 2);
    match x.code {
        Some(c) => {
            let w: nat = if x.idx == 1 {
                5
            } else {
                15
            };
            bits::lemma_be_len(c as nat, w);
            lemma_num(s, p, x.idx as nat, 2, bits::be(c as nat, w));
            lemma_alone(s, p + 2, bits::be(c as nat, w));
            lemma_num(s, p + 2, c as nat, w, Seq::empty());
        },
        None => {
            lemma_num(s, p, x.idx as nat, 2, Seq::empty());
        },
    }
}

pub open spec fn screen_ok(x: ScreenRef) -> bool {
    x matches ScreenRef::Factors(a, b) ==> a < 8 && b < 4
}

/// A screen reference: a flag, and two factors of three and two bits.
pub open spec fn screen_bits(x: ScreenRef) -> Seq<bool> {
    match x {
        ScreenRef::Unused => seq![false],
        ScreenRef::Factors(a, b) => seq![true] + (bits::be(a as nat, 3) + bits::be(b as nat, 2)),
    }
}

/// Every screen reference reads back.
pub proof fn law_screen(s: Seq<bool>, p: int, x: ScreenRef)
    requires
        screen_ok(x),
        bits::has(s, p, screen_bits(x)),
    ensures
        oamd::screen_at(s, p) == (x, p + screen_bits(x).len()),
{
    lemma_widths();
    match x {
        ScreenRef::Unused => {
            lemma_alone(s, p, seq![false]);
            lemma_flag(s, p, false, Seq::empty());
        },
        ScreenRef::Factors(a, b) => {
            let n = bits::be(b as nat, 2);
            let m = bits::be(a as nat, 3) + n;
            bits::lemma_be_len(a as nat, 3);
            bits::lemma_be_len(b as nat, 2);
            lemma_flag(s, p, true, m);
            lemma_num(s, p + 1, a as nat, 3, n);
            lemma_alone(s, p + 4, n);
            lemma_num(s, p + 4, b as nat, 2, Seq::empty());
        },
    }
}

/// Additional table data: a flag, the number of bytes less one, and the bytes.
pub open spec fn table_bits(data: Seq<bool>) -> Seq<bool> {
    if data.len() == 0 {
        seq![false]
    } else {
        seq![true] + (bits::be((data.len() / 8 - 1) as nat, 4) + data)
    }
}

/// The size of additional table data reads back, and the data are skipped.
pub proof fn law_table(s: Seq<bool>, p: int, data: Seq<bool>)
    requires
        data.len() % 8 == 0,
        data.len() <= 128,
        bits::has(s, p, table_bits(data)),
    ensures
        oamd::table_at(s, p) == ((data.len() / 8) as u32, p + table_bits(data).len()),
{
    reveal(oamd::table_at);
    lemma_widths();
    if data.len() == 0 {
        lemma_alone(s, p, seq![false]);
        lemma_flag(s, p, false, Seq::empty());
    } else {
        let n = (data.len() / 8 - 1) as nat;
        bits::lemma_be_len(n, 4);
        lemma_flag(s, p, true, bits::be(n, 4) + data);
        lemma_num(s, p + 1, n, 4, data);
    }
}

// ------------------------------------------------------------------ info blocks

pub open spec fn render_ok(x: RenderInfo, first: bool) -> bool {
    &&& (x.position is Some) == (x.distance is Some)
    &&& x.position matches Some(v) ==> position_ok(v, first)
    &&& x.distance matches Some(v) ==> distance_ok(v)
    &&& x.zone matches Some(v) ==> v < 16
    &&& x.size matches Some(v) ==> size_ok(v)
    &&& x.screen matches Some(v) ==> screen_ok(v)
}

/// Which parts of the render info there are: position and distance, zone, size, screen reference.
pub open spec fn render_mask(x: RenderInfo) -> nat {
    (if x.position is Some {
        1nat
    } else {
        0
    }) + (if x.zone is Some {
        2nat
    } else {
        0
    }) + (if x.size is Some {
        4nat
    } else {
        0
    }) + (if x.screen is Some {
        8nat
    } else {
        0
    })
}

pub open spec fn place_bits(x: RenderInfo, first: bool) -> Seq<bool> {
    match (x.position, x.distance) {
        (Some(v), Some(d)) => position_bits(v, first) + distance_bits(d),
        _ => Seq::empty(),
    }
}

pub open spec fn zone_bits(x: RenderInfo) -> Seq<bool> {
    match x.zone {
        Some(v) => bits::be(v as nat, 4),
        None => Seq::empty(),
    }
}

pub open spec fn extent_bits(x: RenderInfo) -> Seq<bool> {
    match x.size {
        Some(v) => size_bits(v),
        None => Seq::empty(),
    }
}

pub open spec fn reference_bits(x: RenderInfo) -> Seq<bool> {
    match x.screen {
        Some(v) => screen_bits(v),
        None => Seq::empty(),
    }
}

/// Render info: its parts one behind the other, and the snap flag.
pub open spec fn render_bits(x: RenderInfo, first: bool) -> Seq<bool> {
    place_bits(x, first) + (zone_bits(x) + (extent_bits(x) + (reference_bits(x) + seq![x.snap])))
}

proof fn lemma_mask(x: RenderInfo)
    ensures
        render_mask(x) < 16,
        (render_mask(x) as u32 % 2 == 1) == (x.position is Some),
        (render_mask(x) as u32 / 2 % 2 == 1) == (x.zone is Some),
        (render_mask(x) as u32 / 4 % 2 == 1) == (x.size is Some),
        (render_mask(x) as u32 / 8 % 2 == 1) == (x.screen is Some),
{
}

proof fn lemma_place(s: Seq<bool>, p: int, x: RenderInfo, first: bool, info: u32)
    requires
        render_ok(x, first),
        (info % 2 == 1) == (x.position is Some),
        bits::has(s, p, place_bits(x, first)),
    ensures
        oamd::zone_pos(s, p, first, info) == p + place_bits(x, first).len(),
        x.position matches Some(v) ==> oamd::position_code_at(s, p, first).0 == v,
        x.distance matches Some(d) ==> oamd::distance_at(
            s,
            oamd::position_code_at(s, p, first).1,
        ).0 == d,
{
    if let (Some(v), Some(d)) = (x.position, x.distance) {
        bits::lemma_has_split(s, p, position_bits(v, first), distance_bits(d));
        law_position(s, p, v, first);
        law_distance(s, p + position_bits(v, first).len(), d);
    }
}

proof fn lemma_zone(s: Seq<bool>, p: int, x: RenderInfo, first: bool, info: u32)
    requires
        render_ok(x, first),
        (info / 2 % 2 == 1) == (x.zone is Some),
        bits::has(s, p, zone_bits(x)),
    ensures
        oamd::size_pos(p, info) == p + zone_bits(x).len(),
        x.zone matches Some(v) ==> oamd::num(s, p, 4) == v,
{
    if let Some(v) = x.zone {
        lemma_widths();
        bits::lemma_be_len(v as nat, 4);
        lemma_alone(s, p, zone_bits(x));
        lemma_num(s, p, v as nat, 4, Seq::empty());
    }
}

proof fn lemma_extent(s: Seq<bool>, p: int, x: RenderInfo, first: bool, info: u32)
    requires
        render_ok(x, first),
        (info / 4 % 2 == 1) == (x.size is Some),
        bits::has(s, p, extent_bits(x)),
    ensures
        oamd::screen_pos(s, p, info) == p + extent_bits(x).len(),
        x.size matches Some(v) ==> oamd::size_at(s, p).0 == v,
{
    if let Some(v) = x.size {
        law_size(s, p, v);
    }
}

proof fn lemma_reference(s: Seq<bool>, p: int, x: RenderInfo, first: bool, info: u32)
    requires
        render_ok(x, first),
        (info / 8 % 2 == 1) == (x.screen is Some),
        bits::has(s, p, reference_bits(x)),
    ensures
        oamd::snap_pos(s, p, info) == p + reference_bits(x).len(),
        x.screen matches Some(v) ==> oamd::screen_at(s, p).0 == v,
{
    if let Some(v) = x.screen {
        law_screen(s, p, v);
    }
}

/// The parts of render info stand one behind the other.
proof fn lemma_render_split(s: Seq<bool>, p: int, x: RenderInfo, first: bool)
    requires
        bits::has(s, p, render_bits(x, first)),
    ensures
        ({
            let p1 = p + place_bits(x, first).len();
            let p2 = p1 + zone_bits(x).len();
            let p3 = p2 + extent_bits(x).len();
            let p4 = p3 + reference_bits(x).len();
            &&& bits::has(s, p, place_bits(x, first))
            &&& bits::has(s, p1, zone_bits(x))
            &&& bits::has(s, p2, extent_bits(x))
            &&& bits::has(s, p3, reference_bits(x))
            &&& bits::bit(s, p4) == x.snap
            &&& p + render_bits(x, first).len() == p4 + 1
        }),
{
    let a = place_bits(x, first);
    let b = zone_bits(x);
    let c = extent_bits(x);
    let d = reference_bits(x);
    lemma_five_parts(s, p, a, b, c, d, x.snap);
}

proof fn lemma_five_parts(
    s: Seq<bool>,
    p: int,
    a: Seq<bool>,
    b: Seq<bool>,
    c: Seq<bool>,
    d: Seq<bool>,
    e: bool,
)
    requires
        bits::has(s, p, a + (b + (c + (d + seq![e])))),
    ensures
        bits::has(s, p, a),
        bits::has(s, p + a.len(), b),
        bits::has(s, p + a.len() + b.len(), c),
        bits::has(s, p + a.len() + b.len() + c.len(), d),
        bits::bit(s, p + a.len() + b.len() + c.len() + d.len()) == e,
        (a + (b + (c + (d + seq![e])))).len() == a.len() + b.len() + c.len() + d.len() + 1,
{
    bits::lemma_has_split(s, p, a, b + (c + (d + seq![e])));
    bits::lemma_has_split(s, p + a.len(), b, c + (d + seq![e]));
    bits::lemma_has_split(s, p + a.len() + b.len(), c, d + seq![e]);
    bits::lemma_has_split(s, p + a.len() + b.len() + c.len(), d, seq![e]);
    bits::lemma_has_bit(s, p + a.len() + b.len() + c.len() + d.len(), e);
}

/// Render info with any of its parts reads back.
#[verifier::spinoff_prover]
pub proof fn law_render(s: Seq<bool>, p: int, x: RenderInfo, first: bool)
    requires
        render_ok(x, first),
        bits::has(s, p, render_bits(x, first)),
    ensures
        oamd::render_parts_at(s, p, first, render_mask(x) as u32) == (x, p + render_bits(x, first).len()),
{
    let info = render_mask(x) as u32;
    let p1 = p + place_bits(x, first).len();
    let p2 = p1 + zone_bits(x).len();
    let p3 = p2 + extent_bits(x).len();
    lemma_mask(x);
    lemma_render_split(s, p, x, first);
    lemma_place(s, p, x, first, info);
    lemma_zone(s, p1, x, first, info);
    lemma_extent(s, p2, x, first, info);
    lemma_reference(s, p3, x, first, info);
    let r = oamd::render_parts_at(s, p, first, info).0;
    assert(r.position == x.position);
    assert(r.distance == x.distance);
    assert(r.zone == x.zone);
    assert(r.size == x.size);
    assert(r.screen == x.screen);
}

pub open spec fn basic_ok(g: Option<GainInfo>, r: Option<Priority>) -> bool {
    &&& g matches Some(v) ==> gain_ok(v)
    &&& r matches Some(v) ==> priority_ok(v)
}

pub open spec fn basic_parts(g: Option<GainInfo>, r: Option<Priority>) -> Seq<bool> {
    (match g {
        Some(v) => gain_bits(v),
        None => Seq::empty(),
    }) + (match r {
        Some(v) => priority_bits(v),
        None => Seq::empty(),
    })
}

/// Basic info. The first block has gain and priority; a later one says by a status of two bits that it
/// has nothing new (0), everything (1), or what two more bits name (3).
pub open spec fn basic_bits(g: Option<GainInfo>, r: Option<Priority>, first: bool, status: nat) -> Seq<
    bool,
> {
    let mask = (if g is Some {
        2nat
    } else {
        0
    }) + (if r is Some {
        1nat
    } else {
        0
    });
    if first {
        basic_parts(g, r)
    } else if status == 3 {
        bits::be(3, 2) + (bits::be(mask, 2) + basic_parts(g, r))
    } else {
        bits::be(status, 2) + basic_parts(g, r)
    }
}

/// The status fits what there is.
pub open spec fn status_ok(all: bool, none: bool, first: bool, status: nat) -> bool {
    if first {
        all
    } else {
        status == 3 || (status == 1 && all) || ((status == 0 || status == 2) && none)
    }
}

proof fn lemma_basic_parts(s: Seq<bool>, p: int, g: Option<GainInfo>, r: Option<Priority>)
    requires
        basic_ok(g, r),
        bits::has(s, p, basic_parts(g, r)),
    ensures
        oamd::gain_priority_at(s, p, g is Some, r is Some) == ((g, r), p + basic_parts(g, r).len()),
{
    let a = match g {
        Some(v) => gain_bits(v),
        None => Seq::empty(),
    };
    let b = match r {
        Some(v) => priority_bits(v),
        None => Seq::empty(),
    };
    bits::lemma_has_split(s, p, a, b);
    if let Some(v) = g {
        law_gain(s, p, v);
    }
    if let Some(v) = r {
        law_priority(s, p + a.len(), v);
    }
}

/// Basic info reads back, in a first block and in a later one.
pub proof fn law_basic(
    s: Seq<bool>,
    p: int,
    g: Option<GainInfo>,
    r: Option<Priority>,
    first: bool,
    status: nat,
)
    requires
        basic_ok(g, r),
        status < 4,
        status_ok(g is Some && r is Some, g is None && r is None, first, status),
        bits::has(s, p, basic_bits(g, r, first, status)),
    ensures
        oamd::basic_at(s, p, first) == ((g, r), p + basic_bits(g, r, first, status).len()),
{
    reveal(oamd::basic_at);
    lemma_widths();
    let parts = basic_parts(g, r);
    let mask = (if g is Some {
        2nat
    } else {
        0
    }) + (if r is Some {
        1nat
    } else {
        0
    });
    bits::lemma_be_len(status, 2);
    bits::lemma_be_len(mask, 2);
    if first {
        lemma_basic_parts(s, p, g, r);
    } else if status == 3 {
        lemma_num(s, p, 3, 2, bits::be(mask, 2) + parts);
        lemma_num(s, p + 2, mask, 2, parts);
        lemma_basic_parts(s, p + 4, g, r);
    } else {
        lemma_num(s, p, status, 2, parts);
        if status == 1 {
            lemma_basic_parts(s, p + 2, g, r);
        } else {
            assert(parts =~= Seq::empty());
        }
    }
}

/// Render info behind its status, as basic info has one; status 3 names the parts by four bits.
pub open spec fn rendered_bits(x: Option<RenderInfo>, first: bool, status: nat) -> Seq<bool> {
    match x {
        Some(v) => if first {
            render_bits(v, first)
        } else if status == 3 {
            bits::be(3, 2) + (bits::be(render_mask(v), 4) + render_bits(v, first))
        } else {
            bits::be(status, 2) + render_bits(v, first)
        },
        None => bits::be(status, 2),
    }
}

pub open spec fn rendered_ok(x: Option<RenderInfo>, first: bool, status: nat) -> bool {
    match x {
        Some(v) => render_ok(v, first) && (if first || status == 1 {
            render_mask(v) == 15
        } else {
            status == 3
        }),
        None => !first && (status == 0 || status == 2),
    }
}

/// Render info reads back, in a first block and in a later one.
pub proof fn law_rendered_info(s: Seq<bool>, p: int, x: Option<RenderInfo>, first: bool, status: nat)
    requires
        status < 4,
        rendered_ok(x, first, status),
        bits::has(s, p, rendered_bits(x, first, status)),
    ensures
        oamd::render_at(s, p, first) == (x, p + rendered_bits(x, first, status).len()),
{
    reveal(oamd::render_at);
    lemma_widths();
    bits::lemma_be_len(status, 2);
    match x {
        Some(v) => {
            let parts = render_bits(v, first);
            bits::lemma_be_len(render_mask(v), 4);
            if first {
                law_render(s, p, v, first);
            } else if status == 3 {
                lemma_num(s, p, 3, 2, bits::be(render_mask(v), 4) + parts);
                lemma_num(s, p + 2, render_mask(v), 4, parts);
                law_render(s, p + 6, v, first);
            } else {
                lemma_num(s, p, status, 2, parts);
                law_render(s, p + 2, v, first);
            }
        },
        None => {
            lemma_alone(s, p, bits::be(status, 2));
            lemma_num(s, p, status, 2, Seq::empty());
        },
    }
}

/// An info block of an active object: a clear flag, basic info, render info where it is no bed, and
/// additional table data.
pub open spec fn block_bits(
    g: Option<GainInfo>,
    r: Option<Priority>,
    x: Option<RenderInfo>,
    table: Seq<bool>,
    first: bool,
    bed: bool,
    basic: nat,
    render: nat,
) -> Seq<bool> {
    seq![false] + (basic_bits(g, r, first, basic) + ((if bed {
        Seq::empty()
    } else {
        rendered_bits(x, first, render)
    }) + table_bits(table)))
}

/// An info block reads back with every field that it was written with.
pub proof fn law_info_block(
    s: Seq<bool>,
    p: int,
    g: Option<GainInfo>,
    r: Option<Priority>,
    x: Option<RenderInfo>,
    table: Seq<bool>,
    first: bool,
    bed: bool,
    basic: nat,
    render: nat,
)
    requires
        basic_ok(g, r),
        basic < 4,
        status_ok(g is Some && r is Some, g is None && r is None, first, basic),
        bed ==> x is None,
        !bed ==> render < 4 && rendered_ok(x, first, render),
        table.len() % 8 == 0,
        table.len() <= 128,
        bits::has(s, p, block_bits(g, r, x, table, first, bed, basic, render)),
    ensures
        oamd::info_block_at(s, p, first, bed) == (
            ObjectInfo {
                active: true,
                gain: g,
                priority: r,
                render: x,
                table_bytes: (table.len() / 8) as u32,
            },
            p + block_bits(g, r, x, table, first, bed, basic, render).len(),
        ),
{
    let b = basic_bits(g, r, first, basic);
    let v = if bed {
        Seq::empty()
    } else {
        rendered_bits(x, first, render)
    };
    let t = table_bits(table);
    lemma_flag(s, p, false, b + (v + t));
    bits::lemma_has_split(s, p + 1, b, v + t);
    bits::lemma_has_split(s, p + 1 + b.len(), v, t);
    law_basic(s, p + 1, g, r, first, basic);
    if !bed {
        law_rendered_info(s, p + 1 + b.len(), x, first, render);
    }
    law_table(s, p + 1 + b.len() + v.len(), table);
}

/// An info block of an object that is not active says nothing but its table data.
pub proof fn law_silent_block(s: Seq<bool>, p: int, table: Seq<bool>, first: bool, bed: bool)
    requires
        table.len() % 8 == 0,
        table.len() <= 128,
        bits::has(s, p, seq![true] + table_bits(table)),
    ensures
        oamd::info_block_at(s, p, first, bed) == (
            ObjectInfo {
                active: false,
                gain: None,
                priority: None,
                render: None,
                table_bytes: (table.len() / 8) as u32,
            },
            p + 1 + table_bits(table).len(),
        ),
{
    lemma_flag(s, p, true, table_bits(table));
    law_table(s, p + 1, table);
}

// ------------------------------------------------------------------ elements and heads

pub open spec fn update_ok(u: BlockUpdate) -> bool {
    &&& u.offset_factor < 64
    &&& u.ramp_code < 4
    &&& (u.ramp is Implied) == (u.ramp_code != 3)
    &&& u.ramp matches Ramp::Index(v) ==> v < 16
    &&& u.ramp matches Ramp::Duration(v) ==> v < 2048
}

/// The timing of a block: six bits of offset, two of ramp code, and behind code 3 an index of four bits
/// or a duration of eleven.
pub open spec fn update_bits(u: BlockUpdate) -> Seq<bool> {
    bits::be(u.offset_factor as nat, 6) + (bits::be(u.ramp_code as nat, 2) + (match u.ramp {
        Ramp::Implied => Seq::empty(),
        Ramp::Index(v) => seq![true] + bits::be(v as nat, 4),
        Ramp::Duration(v) => seq![false] + bits::be(v as nat, 11),
    }))
}

/// The timing of a block reads back.
pub proof fn law_block_update(s: Seq<bool>, p: int, u: BlockUpdate)
    requires
        update_ok(u),
        bits::has(s, p, update_bits(u)),
    ensures
        oamd::block_update_at(s, p) == (u, p + update_bits(u).len()),
{
    lemma_widths();
    let t = match u.ramp {
        Ramp::Implied => Seq::empty(),
        Ramp::Index(v) => seq![true] + bits::be(v as nat, 4),
        Ramp::Duration(v) => seq![false] + bits::be(v as nat, 11),
    };
    bits::lemma_be_len(u.offset_factor as nat, 6);
    bits::lemma_be_len(u.ramp_code as nat, 2);
    lemma_num(s, p, u.offset_factor as nat, 6, bits::be(u.ramp_code as nat, 2) + t);
    lemma_num(s, p + 6, u.ramp_code as nat, 2, t);
    match u.ramp {
        Ramp::Implied => {},
        Ramp::Index(v) => {
            bits::lemma_be_len(v as nat, 4);
            lemma_flag(s, p + 8, true, bits::be(v as nat, 4));
            lemma_alone(s, p + 9, bits::be(v as nat, 4));
            lemma_num(s, p + 9, v as nat, 4, Seq::empty());
        },
        Ramp::Duration(v) => {
            bits::lemma_be_len(v as nat, 11);
            lemma_flag(s, p + 8, false, bits::be(v as nat, 11));
            lemma_alone(s, p + 9, bits::be(v as nat, 11));
            lemma_num(s, p + 9, v as nat, 11, Seq::empty());
        },
    }
}

/// The timing of several blocks.
pub open spec fn updates_bits(us: Seq<BlockUpdate>) -> Seq<bool>
    decreases us.len(),
{
    if us.len() == 0 {
        Seq::empty()
    } else {
        updates_bits(us.drop_last()) + update_bits(us.last())
    }
}

/// The timings of several blocks read back, in order.
pub proof fn law_block_updates(s: Seq<bool>, p: int, us: Seq<BlockUpdate>)
    requires
        forall|i: int| 0 <= i < us.len() ==> update_ok(#[trigger] us[i]),
        bits::has(s, p, updates_bits(us)),
    ensures
        oamd::block_updates_at(s, p, us.len()) == (us, p + updates_bits(us).len()),
    decreases us.len(),
{
    if us.len() > 0 {
        let before = us.drop_last();
        assert forall|i: int| 0 <= i < before.len() implies update_ok(#[trigger] before[i]) by {
            assert(before[i] == us[i]);
        }
        bits::lemma_has_split(s, p, updates_bits(before), update_bits(us.last()));
        law_block_updates(s, p, before);
        assert(update_ok(us[us.len() - 1]));
        law_block_update(s, p + updates_bits(before).len(), us.last());
        assert(before.push(us.last()) =~= us);
    } else {
        assert(us =~= Seq::empty());
    }
}

/// The head of an element, up to its info blocks: id, size, discard flag, sample offset, the timings of
/// its blocks, and the flag for reserved data.
pub open spec fn element_bits(
    id: u32,
    size: u32,
    discard: bool,
    offset: u32,
    blocks: Seq<BlockUpdate>,
    reserved: bool,
) -> Seq<bool> {
    bits::be(id as nat, 4) + (bits::var_bits(size as nat, 4) + (seq![discard] + (bits::be(
        offset as nat,
        2,
    ) + (bits::be((blocks.len() - 1) as nat, 3) + (updates_bits(blocks) + seq![reserved])))))
}

/// The head of an element reads back field by field; its info blocks follow it, as many for each object
/// as there are timings; and it ends where its size says.
#[verifier::spinoff_prover]
pub proof fn law_element_head(
    s: Seq<bool>,
    p: int,
    count: int,
    beds: int,
    id: u32,
    size: u32,
    discard: bool,
    offset: u32,
    blocks: Seq<BlockUpdate>,
    reserved: bool,
)
    requires
        id < 16,
        bits::var_fits(size as nat, 4),
        offset < 4,
        1 <= blocks.len() <= 8,
        forall|i: int| 0 <= i < blocks.len() ==> update_ok(#[trigger] blocks[i]),
        0 <= count,
        bits::has(s, p, element_bits(id, size, discard, offset, blocks, reserved)),
    ensures
        ({
            let e = oamd::element_at(s, p, count, beds);
            let q = p + element_bits(id, size, discard, offset, blocks, reserved).len();
            &&& e.id == id
            &&& e.size == size
            &&& e.discard == discard
            &&& e.sample_offset_code == offset
            &&& e.blocks == blocks
            &&& e.reserved_absent == reserved
            &&& (e.objects, e.used_end) == oamd::infos_at(
                s,
                q,
                blocks.len() as int,
                beds,
                (count * blocks.len()) as nat,
            )
            &&& e.end == p + 4 + bits::var_bits(size as nat, 4).len() + size + 1
        }),
{
    lemma_widths();
    let n = (blocks.len() - 1) as nat;
    let v = bits::var_bits(size as nat, 4);
    let r6 = seq![reserved];
    let r5 = updates_bits(blocks) + r6;
    let r4 = bits::be(n, 3) + r5;
    let r3 = bits::be(offset as nat, 2) + r4;
    let r2 = seq![discard] + r3;
    let q = p + 4 + v.len();
    bits::lemma_be_len(id as nat, 4);
    bits::lemma_be_len(offset as nat, 2);
    bits::lemma_be_len(n, 3);
    lemma_num(s, p, id as nat, 4, v + r2);
    bits::lemma_has_split(s, p + 4, v, r2);
    bits::law_var_roundtrip(s, p + 4, size as nat, 4, 4);
    lemma_flag(s, q, discard, r3);
    lemma_num(s, q + 1, offset as nat, 2, r4);
    lemma_num(s, q + 3, n, 3, r5);
    bits::lemma_has_split(s, q + 6, updates_bits(blocks), r6);
    law_block_updates(s, q + 6, blocks);
    bits::lemma_has_bit(s, q + 6 + updates_bits(blocks).len(), reserved);
}

/// A count less one: five bits, and seven more behind 31.
pub open spec fn count_bits(v: nat) -> Seq<bool> {
    if v < 31 {
        bits::be(v, 5)
    } else {
        bits::be(31, 5) + bits::be((v - 31) as nat, 7)
    }
}

/// The head of a payload: version, objects less one, whether there are dynamic objects only and, where
/// there are, an LFE bed; the flag for alternate data; and the number of elements.
pub open spec fn head_bits(h: OamdHead) -> Seq<bool> {
    bits::be(h.version as nat, 2) + (count_bits((h.object_count - 1) as nat) + (seq![h.dyn_only] + ((
    if h.dyn_only {
        seq![h.lfe]
    } else {
        Seq::empty()
    }) + (seq![h.alt] + bits::be(h.element_count as nat, 4)))))
}

/// The head of a payload reads back field by field.
#[verifier::spinoff_prover]
pub proof fn law_head(s: Seq<bool>, p: int, h: OamdHead)
    requires
        h.version < 4,
        1 <= h.object_count <= 159,
        h.lfe ==> h.dyn_only,
        h.element_count < 16,
        bits::has(s, p, head_bits(h)),
    ensures
        oamd::head_at(s, p) == (h, p + head_bits(h).len()),
{
    lemma_widths();
    let v = (h.object_count - 1) as nat;
    let c = count_bits(v);
    let r5 = bits::be(h.element_count as nat, 4);
    let r4 = seq![h.alt] + r5;
    let l = if h.dyn_only {
        seq![h.lfe]
    } else {
        Seq::empty()
    };
    let r3 = l + r4;
    let r2 = seq![h.dyn_only] + r3;
    bits::lemma_be_len(h.version as nat, 2);
    bits::lemma_be_len(h.element_count as nat, 4);
    lemma_num(s, p, h.version as nat, 2, c + r2);
    bits::lemma_has_split(s, p + 2, c, r2);
    if v < 31 {
        bits::lemma_be_len(v, 5);
        lemma_alone(s, p + 2, c);
        lemma_num(s, p + 2, v, 5, Seq::empty());
    } else {
        bits::lemma_be_len(31, 5);
        bits::lemma_be_len((v - 31) as nat, 7);
        lemma_num(s, p + 2, 31, 5, bits::be((v - 31) as nat, 7));
        lemma_alone(s, p + 7, bits::be((v - 31) as nat, 7));
        lemma_num(s, p + 7, (v - 31) as nat, 7, Seq::empty());
    }
    let q = p + 2 + c.len();
    lemma_flag(s, q, h.dyn_only, r3);
    bits::lemma_has_split(s, q + 1, l, r4);
    if h.dyn_only {
        bits::lemma_has_bit(s, q + 1, h.lfe);
    }
    let q2 = q + 1 + l.len();
    lemma_flag(s, q2, h.alt, r5);
    lemma_alone(s, q2 + 1, r5);
    lemma_num(s, q2 + 1, h.element_count as nat, 4, Seq::empty());
}

// ------------------------------------------------------------------ order of blocks and elements

/// The info blocks stand one behind the other, object by object: block `k` is the first of its object
/// where `k` is a multiple of the blocks that an object has, and belongs to a bed where its object does.
pub proof fn law_block_order(s: Seq<bool>, p: int, blocks: int, beds: int, n: nat, k: int)
    requires
        0 <= k < n,
        1 <= blocks,
    ensures
        ({
            let all = oamd::infos_at(s, p, blocks, beds, n).0;
            let at = oamd::infos_at(s, p, blocks, beds, k as nat).1;
            &&& all.len() == n
            &&& all[k] == oamd::info_block_at(s, at, k % blocks == 0, k / blocks < beds).0
            &&& oamd::infos_at(s, p, blocks, beds, (k + 1) as nat).1 == oamd::info_block_at(
                s,
                at,
                k % blocks == 0,
                k / blocks < beds,
            ).1
            &&& oamd::infos_at(s, p, blocks, beds, 0).1 == p
        }),
    decreases n,
{
    lemma_infos_len(s, p, blocks, beds, n);
    lemma_infos_len(s, p, blocks, beds, (n - 1) as nat);
    if k < n - 1 {
        law_block_order(s, p, blocks, beds, (n - 1) as nat, k);
    }
}

proof fn lemma_infos_len(s: Seq<bool>, p: int, blocks: int, beds: int, n: nat)
    ensures
        oamd::infos_at(s, p, blocks, beds, n).0.len() == n,
    decreases n,
{
    if n > 0 {
        lemma_infos_len(s, p, blocks, beds, (n - 1) as nat);
    }
}

/// Every element starts where the one before it ends by its size, and the first one behind the head.
pub proof fn law_element_order(s: Seq<bool>, p: int, count: int, beds: int, n: nat, k: int)
    requires
        0 <= k < n,
    ensures
        ({
            let all = oamd::elements_at(s, p, count, beds, n);
            &&& all.len() == n
            &&& all[k] == oamd::element_at(
                s,
                if k == 0 {
                    p
                } else {
                    all[k - 1].end
                },
                count,
                beds,
            )
        }),
    decreases n,
{
    lemma_elements_len(s, p, count, beds, n);
    lemma_elements_len(s, p, count, beds, (n - 1) as nat);
    let before = oamd::elements_at(s, p, count, beds, (n - 1) as nat);
    let all = oamd::elements_at(s, p, count, beds, n);
    if k < n - 1 {
        law_element_order(s, p, count, beds, (n - 1) as nat, k);
        assert(all[k] == before[k]);
        if k > 0 {
            assert(all[k - 1] == before[k - 1]);
        }
    } else if k > 0 {
        assert(all[k - 1] == before.last());
    }
}

proof fn lemma_elements_len(s: Seq<bool>, p: int, count: int, beds: int, n: nat)
    ensures
        oamd::elements_at(s, p, count, beds, n).len() == n,
    decreases n,
{
    if n > 0 {
        lemma_elements_len(s, p, count, beds, (n - 1) as nat);
    }
}

/// A dump shows the head of a payload and each of its elements, field by field.
pub proof fn law_dump(d: oamd::OamdDump, s: Seq<bool>, p: int, k: int)
    requires
        oamd::dump_of(d, s, p),
        0 <= k < oamd::head_at(s, p).0.element_count,
    ensures
        ({
            let (h, q) = oamd::head_at(s, p);
            let e = oamd::elements_at(
                s,
                q,
                h.object_count as int,
                h.beds(),
                h.element_count as nat,
            )[k];
            let shown = d.elements@[k];
            &&& d.version == h.version
            &&& d.object_count == h.object_count
            &&& d.dyn_only == h.dyn_only
            &&& d.lfe == h.lfe
            &&& d.alt == h.alt
            &&& d.elements@.len() == h.element_count
            &&& shown.id == e.id
            &&& shown.size == e.size
            &&& shown.discard == e.discard
            &&& shown.sample_offset_code == e.sample_offset_code
            &&& shown.blocks@ == e.blocks
            &&& shown.reserved_absent == e.reserved_absent
            &&& shown.objects@ == e.objects
            &&& shown.used_end == e.used_end
            &&& shown.end == e.end
        }),
{
    let (h, q) = oamd::head_at(s, p);
    let all = oamd::elements_at(s, q, h.object_count as int, h.beds(), h.element_count as nat);
    let shown = d.elements@.map_values(|e: oamd::OamdElement| e@);
    assert(shown == all);
    lemma_elements_len(s, q, h.object_count as int, h.beds(), h.element_count as nat);
    assert(shown[k] == d.elements@[k]@);
}

// ------------------------------------------------------------------ positions

/// An info block with a position of its own gives its object that position; one with a difference, or of
/// a bed without any, puts it at zero; another one says nothing of it.
pub proof fn law_position_of(i: ObjectInfo, bed: bool)
    ensures
        i.render matches Some(r) ==> r.position matches Some(PositionCode::Absolute { px, py, zsign, pz })
            ==> oamd::position_of(i, bed) == Some(DecodedObject { px, py, pz, is_bed: bed }),
        i.render matches Some(r) ==> r.position is Some && r.position->0 is Difference
            ==> oamd::position_of(i, bed) == Some(DecodedObject { px: 0, py: 0, pz: 0, is_bed: bed }),
        bed && i.render is None ==> oamd::position_of(i, bed) == Some(
            DecodedObject { px: 0, py: 0, pz: 0, is_bed: true },
        ),
        !bed && i.render is None ==> oamd::position_of(i, bed) is None,
        !bed && i.render is Some && i.render->0.position is None ==> oamd::position_of(i, bed) is None,
{
}

/// Info block `k` says something of its object's position.
pub open spec fn placed(infos: Seq<ObjectInfo>, blocks: int, beds: int, k: int) -> bool {
    oamd::position_of(infos[k], k / blocks < beds) is Some
}

/// The positions of an element are those of its info blocks, in order: one that says something of a
/// position puts it behind those of the blocks before it, and there are no others.
pub proof fn law_positions_in(infos: Seq<ObjectInfo>, blocks: int, beds: int, n: nat, i: int)
    requires
        0 <= i < n,
    ensures
        ({
            let p = |k: int| placed(infos, blocks, beds, k);
            let all = oamd::positions_in(infos, blocks, beds, n);
            &&& all.len() == passes_laws::how_many(p, n)
            &&& placed(infos, blocks, beds, i) ==> passes_laws::how_many(p, i as nat) < all.len()
                && all[passes_laws::how_many(p, i as nat) as int] == oamd::position_of(
                infos[i],
                i / blocks < beds,
            )->0
        }),
    decreases n,
{
    let p = |k: int| placed(infos, blocks, beds, k);
    lemma_positions_len(infos, blocks, beds, n);
    lemma_positions_len(infos, blocks, beds, (n - 1) as nat);
    if i < n - 1 {
        law_positions_in(infos, blocks, beds, (n - 1) as nat, i);
        passes_laws::lemma_how_many_step(p, i as nat, (n - 1) as nat);
    }
}

proof fn lemma_positions_len(infos: Seq<ObjectInfo>, blocks: int, beds: int, n: nat)
    ensures
        oamd::positions_in(infos, blocks, beds, n).len() == passes_laws::how_many(
            |k: int| placed(infos, blocks, beds, k),
            n,
        ),
    decreases n,
{
    if n > 0 {
        lemma_positions_len(infos, blocks, beds, (n - 1) as nat);
    }
}

/// The positions of a payload are those of its elements, one behind the other.
pub proof fn law_positions(elements: Seq<ElementView>, beds: int, n: nat, k: int)
    requires
        0 <= k < n,
    ensures
        ({
            let e = elements[k];
            let own = oamd::positions_in(e.objects, e.blocks.len() as int, beds, e.objects.len());
            let at = oamd::positions(elements, beds, k as nat).len() as int;
            let all = oamd::positions(elements, beds, n);
            &&& at + own.len() <= all.len()
            &&& all.subrange(at, at + own.len()) == own
            &&& oamd::positions(elements, beds, (k + 1) as nat).len() == at + own.len()
        }),
    decreases n,
{
    let e = elements[k];
    let own = oamd::positions_in(e.objects, e.blocks.len() as int, beds, e.objects.len());
    let at = oamd::positions(elements, beds, k as nat).len() as int;
    let all = oamd::positions(elements, beds, n);
    let before = oamd::positions(elements, beds, (n - 1) as nat);
    if k < n - 1 {
        law_positions(elements, beds, (n - 1) as nat, k);
        assert(all.subrange(at, at + own.len()) =~= before.subrange(at, at + own.len()));
    } else {
        assert(all.subrange(at, at + own.len()) =~= own);
    }
}

/// A payload has one bed where it says that it has an LFE bed, and none otherwise.
pub proof fn law_beds(h: OamdHead)
    ensures
        h.beds() == (if h.lfe {
            1int
        } else {
            0
        }),
{
}

} // verus!
