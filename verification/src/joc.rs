//! JOC (Joint Object Coding) payloads.
//!
//! A JOC payload describes, per object, a mixing matrix over the core downmix channels (5
//! full-bandwidth channels for joc_dmx_config_idx 0) x parameter bands (grouped QMF subbands). The
//! decoder reconstructs each object as a sum over the core channels. Matrix values are quantized
//! around a center, then band-differentially Huffman coded.

use crate::bits;
use crate::bits::{BitReader, BitWriter};
use crate::emdf::EMDF_SYNC;
use crate::oamd;
use vstd::prelude::*;

verus! {

/// Decode trees and band counts.
///
/// A tree is a list of nodes; a node names, for a zero and for a one bit, the next node, or with a
/// negative number `n` the symbol `-n - 1`.
pub struct JocTables {
    /// Parameter bands for each joc_num_bands_idx.
    pub num_bands: [u8; 8],
    pub fine_generic: Vec<[i32; 2]>,
    pub coarse_generic: Vec<[i32; 2]>,
    pub fine_coeff_sparse: Vec<[i32; 2]>,
    pub coarse_coeff_sparse: Vec<[i32; 2]>,
    pub pos_index_5ch: Vec<[i32; 2]>,
    pub pos_index_7ch: Vec<[i32; 2]>,
}

impl JocTables {
    /// Every tree has a root.
    pub open spec fn ok(&self) -> bool {
        &&& self.fine_generic@.len() > 0
        &&& self.coarse_generic@.len() > 0
        &&& self.fine_coeff_sparse@.len() > 0
        &&& self.coarse_coeff_sparse@.len() > 0
        &&& self.pos_index_5ch@.len() > 0
        &&& self.pos_index_7ch@.len() > 0
    }
}

/// Why a JOC payload was refused.
#[derive(Clone, Copy, PartialEq, Eq, Structural, Debug)]
pub enum JocError {
    /// Unsupported joc_dmx_config_idx.
    DmxConfig(u8),
    /// Unsupported joc_ext_config_idx.
    ExtConfig(u32),
    /// A decode tree names a node that it does not have.
    HuffNode(i32),
    /// A Huffman code ran past the end of the payload.
    HuffPastEnd,
    /// The payload was overrun.
    Overrun { used: usize, end: usize },
}

/// One object's decoded JOC data (raw integer codes, before dequantization).
#[derive(Debug, Clone, Default)]
pub struct JocObject {
    pub active: bool,
    pub bands_idx: u8,
    pub bands: usize,
    pub sparse: bool,
    /// 0 = coarse (step 0.2, center 48, 96 codes), 1 = fine (step 0.1, center 96, 192 codes).
    pub quant: u8,
    pub steep_slope: bool,
    pub data_points: usize,
    pub timeslot_offsets: [usize; 2],
    /// Sparse mode: source channel codes, `[dp][band]`.
    pub channels: Vec<Vec<i32>>,
    /// Sparse mode: gain codes for the source channel, `[dp][band]`.
    pub vectors: Vec<Vec<i32>>,
    /// Full mode: differential matrix codes, `[dp][ch][band]`.
    pub matrix: Vec<Vec<Vec<i32>>>,
}

/// A decoded JOC frame (header + info + raw data codes).
#[derive(Debug, Clone)]
pub struct JocFrame {
    pub dmx_config: u8,
    pub channel_count: usize,
    pub object_count: usize,
    pub gain_pow: u8,
    pub gain_frac: u8,
    pub seq: u16,
    pub objects: Vec<JocObject>,
    /// Bits consumed from the payload by the parse.
    pub bits_used: usize,
}

// ------------------------------------------------------------------ model

/// The info of an object. Of an object that is not active nothing is said.
#[derive(Clone, Copy)]
pub struct JocInfo {
    pub active: bool,
    pub bands_idx: u8,
    pub bands: usize,
    pub sparse: bool,
    pub quant: u8,
    pub steep_slope: bool,
    pub data_points: usize,
    pub offset0: usize,
    pub offset1: usize,
}

/// An object: its info and its codes.
#[verifier::ext_equal]
pub struct ObjectView {
    pub info: JocInfo,
    pub channels: Seq<Seq<i32>>,
    pub vectors: Seq<Seq<i32>>,
    pub matrix: Seq<Seq<Seq<i32>>>,
}

pub open spec fn rows_of(v: Seq<Vec<i32>>) -> Seq<Seq<i32>> {
    v.map_values(|r: Vec<i32>| r@)
}

pub open spec fn points_of(v: Seq<Vec<Vec<i32>>>) -> Seq<Seq<Seq<i32>>> {
    v.map_values(|m: Vec<Vec<i32>>| rows_of(m@))
}

impl View for JocObject {
    type V = ObjectView;

    open spec fn view(&self) -> ObjectView {
        ObjectView {
            info: JocInfo {
                active: self.active,
                bands_idx: self.bands_idx,
                bands: self.bands,
                sparse: self.sparse,
                quant: self.quant,
                steep_slope: self.steep_slope,
                data_points: self.data_points,
                offset0: self.timeslot_offsets[0],
                offset1: self.timeslot_offsets[1],
            },
            channels: rows_of(self.channels@),
            vectors: rows_of(self.vectors@),
            matrix: points_of(self.matrix@),
        }
    }
}

/// A frame.
#[verifier::ext_equal]
pub struct FrameView {
    pub dmx_config: u8,
    pub channel_count: int,
    pub object_count: int,
    pub gain_pow: u8,
    pub gain_frac: u8,
    pub seq: u16,
    pub objects: Seq<ObjectView>,
    pub bits_used: int,
}

impl View for JocFrame {
    type V = FrameView;

    open spec fn view(&self) -> FrameView {
        FrameView {
            dmx_config: self.dmx_config,
            channel_count: self.channel_count as int,
            object_count: self.object_count as int,
            gain_pow: self.gain_pow,
            gain_frac: self.gain_frac,
            seq: self.seq,
            objects: self.objects@.map_values(|o: JocObject| o@),
            bits_used: self.bits_used as int,
        }
    }
}

/// A tree.
pub type Tree = Seq<[i32; 2]>;

/// Where a node leads with bit `b`.
pub open spec fn branch(t: Tree, node: int, b: bool) -> i32 {
    if b {
        t[node][1]
    } else {
        t[node][0]
    }
}

/// The symbol that the bits from `p` on spell out from `node` on, and the position behind them.
pub open spec fn huff_at(t: Tree, s: Seq<bool>, p: int, node: int) -> Result<(i32, int), JocError>
    decreases s.len() + 1 - p,
{
    let next = branch(t, node, bits::bit(s, p));
    if next < 0 {
        Ok(((-next - 1) as i32, p + 1))
    } else if next >= t.len() {
        Err(JocError::HuffNode(next))
    } else if p + 1 > s.len() {
        Err(JocError::HuffPastEnd)
    } else {
        huff_at(t, s, p + 1, next as int)
    }
}

/// `n` symbols from `p` on, `acc` being those before them.
pub open spec fn row_from(t: Tree, s: Seq<bool>, p: int, acc: Seq<i32>, n: nat) -> Result<
    (Seq<i32>, int),
    JocError,
>
    decreases n - acc.len(),
{
    if acc.len() >= n {
        Ok((acc, p))
    } else {
        match huff_at(t, s, p, 0) {
            Err(e) => Err(e),
            Ok((v, q)) => row_from(t, s, q, acc.push(v), n),
        }
    }
}

/// `rows` rows of `bands` symbols from `p` on, `acc` being those before them.
pub open spec fn matrix_from(
    t: Tree,
    s: Seq<bool>,
    p: int,
    acc: Seq<Seq<i32>>,
    rows: nat,
    bands: nat,
) -> Result<(Seq<Seq<i32>>, int), JocError>
    decreases rows - acc.len(),
{
    if acc.len() >= rows {
        Ok((acc, p))
    } else {
        match row_from(t, s, p, Seq::empty(), bands) {
            Err(e) => Err(e),
            Ok((r, q)) => matrix_from(t, s, q, acc.push(r), rows, bands),
        }
    }
}

/// `points` matrices from `p` on, `acc` being those before them.
pub open spec fn points_from(
    t: Tree,
    s: Seq<bool>,
    p: int,
    acc: Seq<Seq<Seq<i32>>>,
    points: nat,
    rows: nat,
    bands: nat,
) -> Result<(Seq<Seq<Seq<i32>>>, int), JocError>
    decreases points - acc.len(),
{
    if acc.len() >= points {
        Ok((acc, p))
    } else {
        match matrix_from(t, s, p, Seq::empty(), rows, bands) {
            Err(e) => Err(e),
            Ok((m, q)) => points_from(t, s, q, acc.push(m), points, rows, bands),
        }
    }
}

/// A sparse data point: channel codes, the first one plain, and gain codes.
pub open spec fn sparse_point_at(ct: Tree, vt: Tree, s: Seq<bool>, p: int, bands: nat) -> Result<
    (Seq<i32>, Seq<i32>, int),
    JocError,
> {
    match row_from(ct, s, p + 3, seq![bits::field(s, p, 3) as i32], bands) {
        Err(e) => Err(e),
        Ok((c, q)) => match row_from(vt, s, q, Seq::empty(), bands) {
            Err(e) => Err(e),
            Ok((v, q2)) => Ok((c, v, q2)),
        },
    }
}

/// `points` sparse data points from `p` on, behind those given.
pub open spec fn sparse_from(
    ct: Tree,
    vt: Tree,
    s: Seq<bool>,
    p: int,
    channels: Seq<Seq<i32>>,
    vectors: Seq<Seq<i32>>,
    points: nat,
    bands: nat,
) -> Result<(Seq<Seq<i32>>, Seq<Seq<i32>>, int), JocError>
    decreases points - channels.len(),
{
    if channels.len() >= points {
        Ok((channels, vectors, p))
    } else {
        match sparse_point_at(ct, vt, s, p, bands) {
            Err(e) => Err(e),
            Ok((c, v, q)) => sparse_from(
                ct,
                vt,
                s,
                q,
                channels.push(c),
                vectors.push(v),
                points,
                bands,
            ),
        }
    }
}

impl JocTables {
    pub open spec fn mtx(&self, quant: u8) -> Tree {
        if quant == 1 {
            self.fine_generic@
        } else {
            self.coarse_generic@
        }
    }

    pub open spec fn vec(&self, quant: u8) -> Tree {
        if quant == 1 {
            self.fine_coeff_sparse@
        } else {
            self.coarse_coeff_sparse@
        }
    }

    pub open spec fn idx(&self, channels: int) -> Tree {
        if channels == 7 {
            self.pos_index_7ch@
        } else {
            self.pos_index_5ch@
        }
    }
}

/// The info of an object at `p`, and where it ends.
pub open spec fn info_at(t: JocTables, s: Seq<bool>, p: int) -> (JocInfo, int) {
    if !bits::bit(s, p) {
        (
            JocInfo {
                active: false,
                bands_idx: 0,
                bands: 0,
                sparse: false,
                quant: 0,
                steep_slope: false,
                data_points: 0,
                offset0: 0,
                offset1: 0,
            },
            p + 1,
        )
    } else {
        let idx = bits::field(s, p + 1, 3);
        let steep = bits::bit(s, p + 6);
        let points = bits::field(s, p + 7, 1) + 1;
        (
            JocInfo {
                active: true,
                bands_idx: idx as u8,
                bands: t.num_bands[idx as int] as usize,
                sparse: bits::bit(s, p + 4),
                quant: bits::field(s, p + 5, 1) as u8,
                steep_slope: steep,
                data_points: points as usize,
                offset0: if steep {
                    (bits::field(s, p + 8, 5) + 1) as usize
                } else {
                    0
                },
                offset1: if steep && points == 2 {
                    (bits::field(s, p + 13, 5) + 1) as usize
                } else {
                    0
                },
            },
            p + 8 + (if steep {
                5 * points as int
            } else {
                0
            }),
        )
    }
}

/// The info of the first `n` objects from `p` on.
pub open spec fn infos_at(t: JocTables, s: Seq<bool>, p: int, n: nat) -> (Seq<JocInfo>, int)
    decreases n,
{
    if n == 0 {
        (Seq::empty(), p)
    } else {
        let before = infos_at(t, s, p, (n - 1) as nat);
        let i = info_at(t, s, before.1);
        (before.0.push(i.0), i.1)
    }
}

/// The data of an object at `p`.
pub open spec fn object_at(t: JocTables, channels: int, s: Seq<bool>, p: int, info: JocInfo) -> Result<
    (ObjectView, int),
    JocError,
> {
    let none = Seq::<Seq<i32>>::empty();
    let no_matrix = Seq::<Seq<Seq<i32>>>::empty();
    let points = info.data_points as nat;
    let bands = info.bands as nat;
    if !info.active {
        Ok((ObjectView { info, channels: none, vectors: none, matrix: no_matrix }, p))
    } else if info.sparse {
        match sparse_from(t.idx(channels), t.vec(info.quant), s, p, none, none, points, bands) {
            Err(e) => Err(e),
            Ok((c, v, q)) => Ok(
                (ObjectView { info, channels: c, vectors: v, matrix: no_matrix }, q),
            ),
        }
    } else {
        match points_from(t.mtx(info.quant), s, p, no_matrix, points, channels as nat, bands) {
            Err(e) => Err(e),
            Ok((m, q)) => Ok((ObjectView { info, channels: none, vectors: none, matrix: m }, q)),
        }
    }
}

/// The objects whose info is given, from `p` on, `acc` being those before them.
pub open spec fn objects_from(
    t: JocTables,
    channels: int,
    s: Seq<bool>,
    p: int,
    infos: Seq<JocInfo>,
    acc: Seq<ObjectView>,
) -> Result<(Seq<ObjectView>, int), JocError>
    decreases infos.len() - acc.len(),
{
    if acc.len() >= infos.len() {
        Ok((acc, p))
    } else {
        match object_at(t, channels, s, p, infos[acc.len() as int]) {
            Err(e) => Err(e),
            Ok((o, q)) => objects_from(t, channels, s, q, infos, acc.push(o)),
        }
    }
}

/// Where the objects' info stands, behind header and frame info.
pub const INFO_BIT: usize = 30;

/// The frame that the bits `s` spell out.
pub open spec fn frame_at(t: JocTables, s: Seq<bool>) -> Result<FrameView, JocError> {
    let dmx = bits::field(s, 0, 3) as u8;
    let ext = bits::field(s, 9, 3) as u32;
    let channels = if dmx == 0 || dmx == 3 {
        5int
    } else {
        7
    };
    let count = bits::field(s, 3, 6) + 1;
    let infos = infos_at(t, s, INFO_BIT as int, count);
    if dmx > 4 {
        Err(JocError::DmxConfig(dmx))
    } else if ext != 0 {
        Err(JocError::ExtConfig(ext))
    } else {
        match objects_from(t, channels, s, infos.1, infos.0, Seq::empty()) {
            Err(e) => Err(e),
            Ok((objects, q)) => if q > s.len() {
                Err(JocError::Overrun { used: q as usize, end: s.len() as usize })
            } else {
                Ok(
                    FrameView {
                        dmx_config: dmx,
                        channel_count: channels,
                        object_count: count as int,
                        gain_pow: bits::field(s, 12, 3) as u8,
                        gain_frac: bits::field(s, 15, 5) as u8,
                        seq: bits::field(s, 20, 10) as u16,
                        objects,
                        bits_used: q,
                    },
                )
            },
        }
    }
}

// ------------------------------------------------------------------ decoding

/// The farther of a position and the end.
pub open spec fn reach(p: int, s: Seq<bool>) -> int {
    if p > s.len() {
        p
    } else {
        s.len() as int
    }
}

fn huff_decode(table: &Vec<[i32; 2]>, r: &mut BitReader) -> (v: Result<i32, JocError>)
    requires
        table@.len() > 0,
        reach(old(r).pos as int, old(r).bits()) < usize::MAX - 1,
        8 * old(r).data@.len() <= usize::MAX,
    ensures
        final(r).data@ == old(r).data@,
        match huff_at(table@, old(r).bits(), old(r).pos as int, 0) {
            Err(e) => v == Err::<i32, JocError>(e),
            Ok((x, q)) => v == Ok::<i32, JocError>(x) && final(r).pos == q,
        },
        old(r).pos < final(r).pos <= reach(old(r).pos as int, old(r).bits()) + 1,
{
    let ghost s = r.bits();
    let ghost p0 = r.pos as int;
    let end = r.data.len() * 8;
    let mut node: usize = 0;
    loop
        invariant
            node < table@.len(),
            s == bits::bits_of(r.data@),
            r.data@ == old(r).data@,
            end == s.len(),
            p0 <= r.pos,
            r.pos == p0 || r.pos <= end,
            reach(p0, s) < usize::MAX - 1,
            p0 == old(r).pos,
            s == old(r).bits(),
            huff_at(table@, s, p0, 0) == huff_at(table@, s, r.pos as int, node as int),
        decreases s.len() + 1 - r.pos,
    {
        let b = r.read_bit();
        let next: i32 = if b {
            table[node][1]
        } else {
            table[node][0]
        };
        if next < 0 {
            return Ok(-(next + 1));
        }
        if next as usize >= table.len() {
            return Err(JocError::HuffNode(next));
        }
        if r.pos > end {
            return Err(JocError::HuffPastEnd);
        }
        node = next as usize;
    }
}

/// Reads symbols behind those in `first` until there are `n`.
fn read_row(table: &Vec<[i32; 2]>, r: &mut BitReader, first: Vec<i32>, n: usize) -> (v: Result<
    Vec<i32>,
    JocError,
>)
    requires
        table@.len() > 0,
        first@.len() <= 1,
        n <= 255,
        reach(old(r).pos as int, old(r).bits()) + 300 < usize::MAX,
        8 * old(r).data@.len() <= usize::MAX,
    ensures
        final(r).data@ == old(r).data@,
        match row_from(table@, old(r).bits(), old(r).pos as int, first@, n as nat) {
            Err(e) => v == Err::<Vec<i32>, JocError>(e),
            Ok((x, q)) => v matches Ok(y) && y@ == x && final(r).pos == q,
        },
        reach(final(r).pos as int, old(r).bits()) <= reach(old(r).pos as int, old(r).bits()) + n,
{
    let ghost s = r.bits();
    let ghost p0 = r.pos as int;
    let mut row = first;
    let ghost k0 = first@.len() as int;
    while row.len() < n
        invariant
            k0 == first@.len(),
            k0 <= row@.len(),
            row@.len() <= n || row@.len() == k0,
            k0 <= 1,
            n <= 255,
            table@.len() > 0,
            s == bits::bits_of(r.data@),
            s == old(r).bits(),
            r.data@ == old(r).data@,
            8 * r.data@.len() <= usize::MAX,
            reach(p0, s) + 300 < usize::MAX,
            p0 == old(r).pos,
            row_from(table@, s, p0, first@, n as nat) == row_from(
                table@,
                s,
                r.pos as int,
                row@,
                n as nat,
            ),
            reach(r.pos as int, s) <= reach(p0, s) + (row@.len() - k0),
        decreases n - row@.len(),
    {
        match huff_decode(table, r) {
            Ok(v) => {
                row.push(v);
            },
            Err(e) => {
                return Err(e);
            },
        }
    }
    Ok(row)
}

/// Reads a matrix of `rows` rows.
fn read_matrix(table: &Vec<[i32; 2]>, r: &mut BitReader, rows: usize, bands: usize) -> (v: Result<
    Vec<Vec<i32>>,
    JocError,
>)
    requires
        table@.len() > 0,
        rows <= 7,
        bands <= 255,
        reach(old(r).pos as int, old(r).bits()) + 3000 < usize::MAX,
        8 * old(r).data@.len() <= usize::MAX,
    ensures
        final(r).data@ == old(r).data@,
        match matrix_from(
            table@,
            old(r).bits(),
            old(r).pos as int,
            Seq::empty(),
            rows as nat,
            bands as nat,
        ) {
            Err(e) => v == Err::<Vec<Vec<i32>>, JocError>(e),
            Ok((x, q)) => v matches Ok(y) && rows_of(y@) == x && final(r).pos == q,
        },
        reach(final(r).pos as int, old(r).bits()) <= reach(old(r).pos as int, old(r).bits()) + 255
            * 7,
{
    let ghost s = r.bits();
    let ghost p0 = r.pos as int;
    let ghost all = matrix_from(table@, s, p0, Seq::empty(), rows as nat, bands as nat);
    let mut m: Vec<Vec<i32>> = Vec::new();
    assert(rows_of(m@) =~= Seq::empty());
    while m.len() < rows
        invariant
            m@.len() <= rows <= 7,
            bands <= 255,
            table@.len() > 0,
            s == bits::bits_of(r.data@),
            s == old(r).bits(),
            r.data@ == old(r).data@,
            8 * r.data@.len() <= usize::MAX,
            reach(p0, s) + 3000 < usize::MAX,
            p0 == old(r).pos,
            all == matrix_from(table@, s, p0, Seq::empty(), rows as nat, bands as nat),
            all == matrix_from(table@, s, r.pos as int, rows_of(m@), rows as nat, bands as nat),
            reach(r.pos as int, s) <= reach(p0, s) + 255 * m@.len(),
        decreases rows - m@.len(),
    {
        match read_row(table, r, Vec::new(), bands) {
            Ok(row) => {
                let ghost before = rows_of(m@);
                m.push(row);
                assert(rows_of(m@) =~= before.push(row@));
            },
            Err(e) => {
                return Err(e);
            },
        }
    }
    Ok(m)
}

/// Reads the matrices of `points` data points.
fn read_points(
    table: &Vec<[i32; 2]>,
    r: &mut BitReader,
    points: usize,
    rows: usize,
    bands: usize,
) -> (v: Result<Vec<Vec<Vec<i32>>>, JocError>)
    requires
        table@.len() > 0,
        points <= 2,
        rows <= 7,
        bands <= 255,
        reach(old(r).pos as int, old(r).bits()) + 10000 < usize::MAX,
        8 * old(r).data@.len() <= usize::MAX,
    ensures
        final(r).data@ == old(r).data@,
        match points_from(
            table@,
            old(r).bits(),
            old(r).pos as int,
            Seq::empty(),
            points as nat,
            rows as nat,
            bands as nat,
        ) {
            Err(e) => v == Err::<Vec<Vec<Vec<i32>>>, JocError>(e),
            Ok((x, q)) => v matches Ok(y) && points_of(y@) == x && final(r).pos == q,
        },
        reach(final(r).pos as int, old(r).bits()) <= reach(old(r).pos as int, old(r).bits())
            + 4000,
{
    let ghost s = r.bits();
    let ghost p0 = r.pos as int;
    let ghost all = points_from(
        table@,
        s,
        p0,
        Seq::empty(),
        points as nat,
        rows as nat,
        bands as nat,
    );
    let mut m: Vec<Vec<Vec<i32>>> = Vec::new();
    assert(points_of(m@) =~= Seq::empty());
    while m.len() < points
        invariant
            m@.len() <= points <= 2,
            rows <= 7,
            bands <= 255,
            table@.len() > 0,
            s == bits::bits_of(r.data@),
            s == old(r).bits(),
            r.data@ == old(r).data@,
            8 * r.data@.len() <= usize::MAX,
            reach(p0, s) + 10000 < usize::MAX,
            p0 == old(r).pos,
            all == points_from(
                table@,
                s,
                p0,
                Seq::empty(),
                points as nat,
                rows as nat,
                bands as nat,
            ),
            all == points_from(
                table@,
                s,
                r.pos as int,
                points_of(m@),
                points as nat,
                rows as nat,
                bands as nat,
            ),
            reach(r.pos as int, s) <= reach(p0, s) + 2000 * m@.len(),
        decreases points - m@.len(),
    {
        match read_matrix(table, r, rows, bands) {
            Ok(point) => {
                let ghost before = points_of(m@);
                m.push(point);
                assert(points_of(m@) =~= before.push(rows_of(point@)));
            },
            Err(e) => {
                return Err(e);
            },
        }
    }
    Ok(m)
}

/// Reads sparse data points.
fn read_sparse(
    ct: &Vec<[i32; 2]>,
    vt: &Vec<[i32; 2]>,
    r: &mut BitReader,
    points: usize,
    bands: usize,
) -> (v: Result<(Vec<Vec<i32>>, Vec<Vec<i32>>), JocError>)
    requires
        ct@.len() > 0,
        vt@.len() > 0,
        points <= 2,
        bands <= 255,
        reach(old(r).pos as int, old(r).bits()) + 10000 < usize::MAX,
        8 * old(r).data@.len() <= usize::MAX,
    ensures
        final(r).data@ == old(r).data@,
        match sparse_from(
            ct@,
            vt@,
            old(r).bits(),
            old(r).pos as int,
            Seq::empty(),
            Seq::empty(),
            points as nat,
            bands as nat,
        ) {
            Err(e) => v == Err::<(Vec<Vec<i32>>, Vec<Vec<i32>>), JocError>(e),
            Ok((c, x, q)) => v matches Ok(y) && rows_of(y.0@) == c && rows_of(y.1@) == x
                && final(r).pos == q,
        },
        reach(final(r).pos as int, old(r).bits()) <= reach(old(r).pos as int, old(r).bits())
            + 2000,
{
    let ghost s = r.bits();
    let ghost p0 = r.pos as int;
    let ghost all = sparse_from(
        ct@,
        vt@,
        s,
        p0,
        Seq::empty(),
        Seq::empty(),
        points as nat,
        bands as nat,
    );
    let mut channels: Vec<Vec<i32>> = Vec::new();
    let mut vectors: Vec<Vec<i32>> = Vec::new();
    assert(rows_of(channels@) =~= Seq::empty());
    assert(rows_of(vectors@) =~= Seq::empty());
    while channels.len() < points
        invariant
            channels@.len() <= points <= 2,
            bands <= 255,
            ct@.len() > 0,
            vt@.len() > 0,
            s == bits::bits_of(r.data@),
            s == old(r).bits(),
            r.data@ == old(r).data@,
            8 * r.data@.len() <= usize::MAX,
            reach(p0, s) + 10000 < usize::MAX,
            p0 == old(r).pos,
            all == sparse_from(
                ct@,
                vt@,
                s,
                p0,
                Seq::empty(),
                Seq::empty(),
                points as nat,
                bands as nat,
            ),
            all == sparse_from(
                ct@,
                vt@,
                s,
                r.pos as int,
                rows_of(channels@),
                rows_of(vectors@),
                points as nat,
                bands as nat,
            ),
            reach(r.pos as int, s) <= reach(p0, s) + 1000 * channels@.len(),
        decreases points - channels@.len(),
    {
        let mut first: Vec<i32> = Vec::new();
        first.push(r.read(3) as i32);
        let chans = match read_row(ct, r, first, bands) {
            Ok(row) => row,
            Err(e) => {
                return Err(e);
            },
        };
        let vecs = match read_row(vt, r, Vec::new(), bands) {
            Ok(row) => row,
            Err(e) => {
                return Err(e);
            },
        };
        let ghost c0 = rows_of(channels@);
        let ghost v0 = rows_of(vectors@);
        channels.push(chans);
        vectors.push(vecs);
        assert(rows_of(channels@) =~= c0.push(chans@));
        assert(rows_of(vectors@) =~= v0.push(vecs@));
    }
    Ok((channels, vectors))
}

fn mtx_table(tables: &JocTables, quant: u8) -> (t: &Vec<[i32; 2]>)
    ensures
        t@ == tables.mtx(quant),
{
    if quant == 1 {
        &tables.fine_generic
    } else {
        &tables.coarse_generic
    }
}

fn vec_table(tables: &JocTables, quant: u8) -> (t: &Vec<[i32; 2]>)
    ensures
        t@ == tables.vec(quant),
{
    if quant == 1 {
        &tables.fine_coeff_sparse
    } else {
        &tables.coarse_coeff_sparse
    }
}

fn idx_table(tables: &JocTables, channels: usize) -> (t: &Vec<[i32; 2]>)
    ensures
        t@ == tables.idx(channels as int),
{
    if channels == 7 {
        &tables.pos_index_7ch
    } else {
        &tables.pos_index_5ch
    }
}

fn read_info(tables: &JocTables, r: &mut BitReader) -> (i: JocInfo)
    requires
        old(r).pos <= usize::MAX - 100,
    ensures
        final(r).data@ == old(r).data@,
        (i, final(r).pos as int) == info_at(*tables, old(r).bits(), old(r).pos as int),
        final(r).pos <= old(r).pos + 18,
        i.bands <= 255,
        i.data_points <= 2,
{
    if !r.read_bit() {
        return JocInfo {
            active: false,
            bands_idx: 0,
            bands: 0,
            sparse: false,
            quant: 0,
            steep_slope: false,
            data_points: 0,
            offset0: 0,
            offset1: 0,
        };
    }
    let bands_idx = r.read(3) as u8;
    let bands = tables.num_bands[bands_idx as usize] as usize;
    let sparse = r.read_bit();
    let quant = r.read(1) as u8;
    let steep_slope = r.read_bit();
    let data_points = r.read(1) as usize + 1;
    let offset0: usize = if steep_slope {
        r.read(5) as usize + 1
    } else {
        0
    };
    let offset1: usize = if steep_slope && data_points == 2 {
        r.read(5) as usize + 1
    } else {
        0
    };
    JocInfo {
        active: true,
        bands_idx,
        bands,
        sparse,
        quant,
        steep_slope,
        data_points,
        offset0,
        offset1,
    }
}

fn read_infos(tables: &JocTables, r: &mut BitReader, n: usize) -> (infos: Vec<JocInfo>)
    requires
        n <= 64,
        old(r).pos <= usize::MAX - 10000,
    ensures
        final(r).data@ == old(r).data@,
        (infos@, final(r).pos as int) == infos_at(
            *tables,
            old(r).bits(),
            old(r).pos as int,
            n as nat,
        ),
        infos@.len() == n,
        final(r).pos <= old(r).pos + 18 * n,
        forall|i: int|
            0 <= i < n ==> (#[trigger] infos@[i]).bands <= 255 && infos@[i].data_points <= 2,
{
    let ghost s = r.bits();
    let ghost p = r.pos as int;
    let mut infos: Vec<JocInfo> = Vec::new();
    while infos.len() < n
        invariant
            infos@.len() <= n <= 64,
            p <= usize::MAX - 10000,
            s == bits::bits_of(r.data@),
            r.data@ == old(r).data@,
            (infos@, r.pos as int) == infos_at(*tables, s, p, infos@.len()),
            r.pos <= p + 18 * infos@.len(),
            forall|i: int|
                0 <= i < infos@.len() ==> (#[trigger] infos@[i]).bands <= 255
                    && infos@[i].data_points <= 2,
        decreases n - infos@.len(),
    {
        let i = read_info(tables, r);
        infos.push(i);
    }
    infos
}

/// Reads the data of one object.
fn read_object(tables: &JocTables, channel_count: usize, r: &mut BitReader, info: &JocInfo) -> (v:
    Result<JocObject, JocError>)
    requires
        tables.ok(),
        channel_count <= 7,
        info.bands <= 255,
        info.data_points <= 2,
        reach(old(r).pos as int, old(r).bits()) + 10000 < usize::MAX,
        8 * old(r).data@.len() <= usize::MAX,
    ensures
        final(r).data@ == old(r).data@,
        match object_at(
            *tables,
            channel_count as int,
            old(r).bits(),
            old(r).pos as int,
            *info,
        ) {
            Err(e) => v == Err::<JocObject, JocError>(e),
            Ok((x, q)) => v matches Ok(y) && y@ == x && final(r).pos == q,
        },
        reach(final(r).pos as int, old(r).bits()) <= reach(old(r).pos as int, old(r).bits())
            + 4000,
{
    let mut channels: Vec<Vec<i32>> = Vec::new();
    let mut vectors: Vec<Vec<i32>> = Vec::new();
    let mut matrix: Vec<Vec<Vec<i32>>> = Vec::new();
    assert(rows_of(channels@) =~= Seq::empty());
    assert(rows_of(vectors@) =~= Seq::empty());
    assert(points_of(matrix@) =~= Seq::empty());
    if info.active {
        if info.sparse {
            let ct = idx_table(tables, channel_count);
            let vt = vec_table(tables, info.quant);
            match read_sparse(ct, vt, r, info.data_points, info.bands) {
                Ok((c, v)) => {
                    channels = c;
                    vectors = v;
                },
                Err(e) => {
                    return Err(e);
                },
            }
        } else {
            let t = mtx_table(tables, info.quant);
            match read_points(t, r, info.data_points, channel_count, info.bands) {
                Ok(m) => {
                    matrix = m;
                },
                Err(e) => {
                    return Err(e);
                },
            }
        }
    }
    Ok(
        JocObject {
            active: info.active,
            bands_idx: info.bands_idx,
            bands: info.bands,
            sparse: info.sparse,
            quant: info.quant,
            steep_slope: info.steep_slope,
            data_points: info.data_points,
            timeslot_offsets: [info.offset0, info.offset1],
            channels,
            vectors,
            matrix,
        },
    )
}

/// Reads the data of all objects.
fn read_objects(
    tables: &JocTables,
    channel_count: usize,
    r: &mut BitReader,
    infos: &Vec<JocInfo>,
) -> (v: Result<Vec<JocObject>, JocError>)
    requires
        tables.ok(),
        channel_count <= 7,
        infos@.len() <= 64,
        forall|i: int|
            0 <= i < infos@.len() ==> (#[trigger] infos@[i]).bands <= 255
                && infos@[i].data_points <= 2,
        reach(old(r).pos as int, old(r).bits()) + 500000 < usize::MAX,
        8 * old(r).data@.len() <= usize::MAX,
    ensures
        final(r).data@ == old(r).data@,
        match objects_from(
            *tables,
            channel_count as int,
            old(r).bits(),
            old(r).pos as int,
            infos@,
            Seq::empty(),
        ) {
            Err(e) => v == Err::<Vec<JocObject>, JocError>(e),
            Ok((x, q)) => v matches Ok(y) && y@.map_values(|o: JocObject| o@) == x
                && final(r).pos == q,
        },
{
    let ghost s = r.bits();
    let ghost p0 = r.pos as int;
    let ghost all = objects_from(
        *tables,
        channel_count as int,
        s,
        p0,
        infos@,
        Seq::empty(),
    );
    let mut objects: Vec<JocObject> = Vec::new();
    assert(objects@.map_values(|o: JocObject| o@) =~= Seq::empty());
    while objects.len() < infos.len()
        invariant
            objects@.len() <= infos@.len() <= 64,
            tables.ok(),
            channel_count <= 7,
            forall|i: int|
                0 <= i < infos@.len() ==> (#[trigger] infos@[i]).bands <= 255
                    && infos@[i].data_points <= 2,
            s == bits::bits_of(r.data@),
            s == old(r).bits(),
            p0 == old(r).pos,
            r.data@ == old(r).data@,
            8 * r.data@.len() <= usize::MAX,
            reach(p0, s) + 500000 < usize::MAX,
            all == objects_from(
                *tables,
                channel_count as int,
                s,
                p0,
                infos@,
                Seq::empty(),
            ),
            all == objects_from(
                *tables,
                channel_count as int,
                s,
                r.pos as int,
                infos@,
                objects@.map_values(|o: JocObject| o@),
            ),
            reach(r.pos as int, s) <= reach(p0, s) + 4000 * objects@.len(),
        decreases infos@.len() - objects@.len(),
    {
        let k = objects.len();
        assert(infos@[k as int].bands <= 255);
        match read_object(tables, channel_count, r, &infos[k]) {
            Ok(o) => {
                let ghost before = objects@.map_values(|o: JocObject| o@);
                objects.push(o);
                assert(objects@.map_values(|o: JocObject| o@) =~= before.push(o@));
            },
            Err(e) => {
                return Err(e);
            },
        }
    }
    Ok(objects)
}

/// Decode a JOC EMDF payload (id 14).
pub fn decode_joc(payload: &[u8], tables: &JocTables) -> (f: Result<JocFrame, JocError>)
    requires
        tables.ok(),
        8 * payload@.len() + 0x10_0000 <= usize::MAX,
    ensures
        match frame_at(*tables, bits::bits_of(payload@)) {
            Err(e) => f == Err::<JocFrame, JocError>(e),
            Ok(v) => f matches Ok(x) && x@ == v,
        },
{
    let ghost s = bits::bits_of(payload@);
    let end = payload.len() * 8;
    let mut r = BitReader::new(payload);
    let dmx_config = r.read(3) as u8;
    if dmx_config > 4 {
        return Err(JocError::DmxConfig(dmx_config));
    }
    let channel_count: usize = if dmx_config == 0 || dmx_config == 3 {
        5
    } else {
        7
    };
    let object_count = r.read(6) as usize + 1;
    let ext_config = r.read(3);
    if ext_config != 0 {
        return Err(JocError::ExtConfig(ext_config));
    }
    let gain_pow = r.read(3) as u8;
    let gain_frac = r.read(5) as u8;
    let seq = r.read(10) as u16;
    let infos = read_infos(tables, &mut r, object_count);
    match read_objects(tables, channel_count, &mut r, &infos) {
        Err(e) => Err(e),
        Ok(objects) => {
            if r.pos > end {
                return Err(JocError::Overrun { used: r.pos, end });
            }
            Ok(
                JocFrame {
                    dmx_config,
                    channel_count,
                    object_count,
                    gain_pow,
                    gain_frac,
                    seq,
                    objects,
                    bits_used: r.pos,
                },
            )
        },
    }
}

// ------------------------------------------------------------------ encoding

/// Fine quantization (quant=1): codes 0..191 around this center.
pub const FINE_CENTER: i32 = 96;

/// Number of fine codes.
pub const FINE_RANGE: i32 = 192;

/// joc_num_bands_idx of encoded frames.
pub const ENC_BANDS_IDX: u32 = 5;

/// Parameter bands of encoded frames.
pub const ENC_BANDS: usize = 12;

/// Longest code that is encoded, in bits.
pub const MAX_CODE_BITS: u8 = 32;

/// From `node` on, every path ends in a symbol within `depth` bits.
pub open spec fn tree_ok(t: Tree, node: int, depth: nat) -> bool
    decreases depth,
{
    &&& depth > 0
    &&& 0 <= node < t.len()
    &&& branch(t, node, false) >= 0 ==> tree_ok(t, branch(t, node, false) as int, (depth - 1) as nat)
    &&& branch(t, node, true) >= 0 ==> tree_ok(t, branch(t, node, true) as int, (depth - 1) as nat)
}

/// Whether every path from `node` on ends in a symbol within `depth` bits.
fn check_tree(table: &Vec<[i32; 2]>, node: usize, depth: u8) -> (b: bool)
    ensures
        b == tree_ok(table@, node as int, depth as nat),
    decreases depth,
{
    if depth == 0 || node >= table.len() {
        return false;
    }
    let zero = table[node][0];
    let one = table[node][1];
    (zero < 0 || check_tree(table, zero as usize, depth - 1)) && (one < 0 || check_tree(
        table,
        one as usize,
        depth - 1,
    ))
}

impl JocTables {
    /// Whether every tree has a root, and the one that the encoder uses ends within the longest code.
    pub fn usable(&self) -> (b: bool)
        ensures
            b == (self.ok() && tree_ok(self.fine_generic@, 0, MAX_CODE_BITS as nat)),
    {
        self.fine_generic.len() > 0 && self.coarse_generic.len() > 0 && self.fine_coeff_sparse.len()
            > 0 && self.coarse_coeff_sparse.len() > 0 && self.pos_index_5ch.len() > 0
            && self.pos_index_7ch.len() > 0 && check_tree(&self.fine_generic, 0, MAX_CODE_BITS)
    }
}

/// The symbol of a leaf.
pub open spec fn symbol(next: i32) -> int {
    -next - 1
}

/// The code of a symbol that starts with bit `b` at `node`.
pub open spec fn code_through(t: Tree, node: int, depth: nat, sym: int, b: bool) -> Option<Seq<bool>>
    decreases depth, 0int,
{
    let next = branch(t, node, b);
    if next < 0 {
        if symbol(next) == sym {
            Some(seq![b])
        } else {
            None
        }
    } else if depth == 0 {
        None
    } else {
        match code_of(t, next as int, (depth - 1) as nat, sym) {
            Some(c) => Some(seq![b] + c),
            None => None,
        }
    }
}

/// The code of a symbol below `node`: the path to its last leaf.
pub open spec fn code_of(t: Tree, node: int, depth: nat, sym: int) -> Option<Seq<bool>>
    decreases depth, 1int,
{
    match code_through(t, node, depth, sym, true) {
        Some(c) => Some(c),
        None => code_through(t, node, depth, sym, false),
    }
}

/// The code of a symbol in a tree.
pub open spec fn tree_code(t: Tree, sym: int) -> Option<Seq<bool>> {
    code_of(t, 0, MAX_CODE_BITS as nat, sym)
}

/// Symbol to (code, bit length), derived from a decode tree.
pub struct HuffEnc {
    codes: Vec<(u32, u8)>,
    tree: Ghost<Tree>,
}

/// A list of codes holds `prefix` and the code `c` for `sym`, or nothing where there is none.
pub open spec fn code_entry(codes: Seq<(u32, u8)>, sym: int, c: Option<Seq<bool>>) -> bool {
    match c {
        Some(c) => 0 <= sym < codes.len() && codes[sym].1 == c.len() && bits::be(
            codes[sym].0 as nat,
            c.len(),
        ) == c,
        None => 0 <= sym < codes.len() ==> codes[sym].1 == 0,
    }
}

/// What a symbol's code is once the subtree below `prefix` was walked: the code there, or what it was.
pub open spec fn code_after(
    prefix: Seq<bool>,
    below: Option<Seq<bool>>,
    before: Option<Seq<bool>>,
) -> Option<Seq<bool>> {
    match below {
        Some(c) => Some(prefix + c),
        None => before,
    }
}

/// Records the codes of the subtree below `node`, which `code` of `len` bits leads to.
fn walk_branch(
    table: &Vec<[i32; 2]>,
    node: usize,
    code: u32,
    len: u8,
    b: bool,
    codes: &mut Vec<(u32, u8)>,
    Ghost(prefix): Ghost<Seq<bool>>,
    Ghost(known): Ghost<spec_fn(int) -> Option<Seq<bool>>>,
)
    requires
        len < MAX_CODE_BITS,
        tree_ok(table@, node as int, (MAX_CODE_BITS - len) as nat),
        prefix.len() == len,
        bits::be(code as nat, len as nat) == prefix,
        code < bits::two(len as nat),
        forall|sym: int| code_entry(old(codes)@, sym, #[trigger] known(sym)),
    ensures
        forall|sym: int|
            code_entry(
                final(codes)@,
                sym,
                code_after(
                    prefix,
                    #[trigger] code_through(
                        table@,
                        node as int,
                        (MAX_CODE_BITS - len) as nat,
                        sym,
                        b,
                    ),
                    known(sym),
                ),
            ),
    decreases MAX_CODE_BITS - len, 0int,
{
    let ghost t = table@;
    let ghost depth = (MAX_CODE_BITS - len) as nat;
    let next: i32 = if b {
        table[node][1]
    } else {
        table[node][0]
    };
    proof {
        bits::lemma_two_values();
        bits::lemma_two_mono((len + 1) as nat, 32);
    }
    let digit: u32 = if b {
        1
    } else {
        0
    };
    assert(code < bits::two(len as nat) && 2 * bits::two(len as nat) == bits::two((len + 1) as nat));
    let longer: u32 = 2 * code + digit;
    let ghost path = prefix + seq![b];
    proof {
        assert(bits::be(longer as nat, (len + 1) as nat) =~= path) by {
            assert(longer / 2 == code);
            assert(bits::be(longer as nat, (len + 1) as nat) == bits::be(code as nat, len as nat).push(b));
        }
    }
    if next < 0 {
        let sym = (-(next + 1)) as usize;
        let ghost before = codes@;
        while codes.len() <= sym
            invariant
                codes@.len() >= before.len(),
                sym < 0x8000_0000,
                codes@.len() <= before.len() || codes@.len() <= sym + 1,
                forall|k: int| 0 <= k < before.len() ==> #[trigger] codes@[k] == before[k],
                forall|k: int| before.len() <= k < codes@.len() ==> #[trigger] codes@[k] == (0u32, 0u8),
            decreases sym + 1 - codes@.len(),
        {
            codes.push((0, 0));
        }
        codes.set(sym, (longer, len + 1));
        proof {
            assert forall|k: int|
                code_entry(
                    codes@,
                    k,
                    code_after(
                        prefix,
                        #[trigger] code_through(t, node as int, depth, k, b),
                        known(k),
                    ),
                ) by {
                assert(code_entry(before, k, known(k)));
                if k == sym {
                    assert(codes@[k] == (longer, (len + 1) as u8));
                } else if 0 <= k < before.len() {
                    assert(codes@[k] == before[k]);
                }
            }
        }
    } else {
        assert(tree_ok(t, next as int, (depth - 1) as nat));
        walk(table, next as usize, longer, len + 1, codes, Ghost(path), Ghost(known));
        proof {
            assert forall|k: int|
                code_entry(
                    codes@,
                    k,
                    code_after(
                        prefix,
                        #[trigger] code_through(t, node as int, depth, k, b),
                        known(k),
                    ),
                ) by {
                let below = code_of(t, next as int, (depth - 1) as nat, k);
                assert(code_entry(codes@, k, code_after(path, below, known(k))));
                if let Some(c) = below {
                    assert(path + c =~= prefix + (seq![b] + c));
                }
            }
        }
    }
}

/// Records the codes of the symbols below `node`, which `code` of `len` bits leads to.
fn walk(
    table: &Vec<[i32; 2]>,
    node: usize,
    code: u32,
    len: u8,
    codes: &mut Vec<(u32, u8)>,
    Ghost(prefix): Ghost<Seq<bool>>,
    Ghost(known): Ghost<spec_fn(int) -> Option<Seq<bool>>>,
)
    requires
        len < MAX_CODE_BITS,
        tree_ok(table@, node as int, (MAX_CODE_BITS - len) as nat),
        prefix.len() == len,
        bits::be(code as nat, len as nat) == prefix,
        code < bits::two(len as nat),
        forall|sym: int| code_entry(old(codes)@, sym, #[trigger] known(sym)),
    ensures
        forall|sym: int|
            code_entry(
                final(codes)@,
                sym,
                code_after(
                    prefix,
                    #[trigger] code_of(table@, node as int, (MAX_CODE_BITS - len) as nat, sym),
                    known(sym),
                ),
            ),
    decreases MAX_CODE_BITS - len, 1int,
{
    let ghost t = table@;
    let ghost depth = (MAX_CODE_BITS - len) as nat;
    walk_branch(table, node, code, len, false, codes, Ghost(prefix), Ghost(known));
    let ghost half = |sym: int|
        code_after(prefix, code_through(t, node as int, depth, sym, false), known(sym));
    assert forall|sym: int| code_entry(codes@, sym, #[trigger] half(sym)) by {
        assert(code_entry(
            codes@,
            sym,
            code_after(prefix, code_through(t, node as int, depth, sym, false), known(sym)),
        ));
    }
    walk_branch(table, node, code, len, true, codes, Ghost(prefix), Ghost(half));
    assert forall|sym: int|
        code_entry(
            codes@,
            sym,
            code_after(prefix, #[trigger] code_of(t, node as int, depth, sym), known(sym)),
        ) by {
        assert(code_entry(
            codes@,
            sym,
            code_after(prefix, code_through(t, node as int, depth, sym, true), half(sym)),
        ));
    }
}

impl HuffEnc {
    /// The tree whose symbols are encoded.
    pub closed spec fn tree(&self) -> Tree {
        self.tree@
    }

    /// The list holds the codes of the tree.
    pub closed spec fn wf(&self) -> bool {
        &&& tree_ok(self.tree@, 0, MAX_CODE_BITS as nat)
        &&& forall|sym: int| code_entry(self.codes@, sym, #[trigger] tree_code(self.tree@, sym))
    }

    /// The tree of an encoder ends within the longest code.
    pub proof fn lemma_tree(&self)
        requires
            self.wf(),
        ensures
            tree_ok(self.tree(), 0, MAX_CODE_BITS as nat),
    {
    }

    /// The encoder for a decode tree.
    pub fn from_tree(table: &Vec<[i32; 2]>) -> (e: Self)
        requires
            tree_ok(table@, 0, MAX_CODE_BITS as nat),
        ensures
            e.wf(),
            e.tree() == table@,
    {
        let mut codes: Vec<(u32, u8)> = Vec::new();
        let ghost none = |sym: int| Option::<Seq<bool>>::None;
        proof {
            assert(bits::be(0, 0) =~= Seq::<bool>::empty());
            assert forall|sym: int| code_entry(codes@, sym, #[trigger] none(sym)) by {}
        }
        walk(table, 0, 0, 0, &mut codes, Ghost(Seq::empty()), Ghost(none));
        let e = HuffEnc { codes, tree: Ghost(table@) };
        proof {
            assert forall|sym: int| code_entry(e.codes@, sym, #[trigger] tree_code(table@, sym)) by {
                let c = code_of(table@, 0, MAX_CODE_BITS as nat, sym);
                assert(code_entry(e.codes@, sym, code_after(Seq::empty(), c, none(sym))));
                if let Some(x) = c {
                    assert(Seq::<bool>::empty() + x =~= x);
                }
            }
        }
        e
    }

    /// Whether every fine symbol has a code.
    pub fn covers(&self) -> (b: bool)
        requires
            self.wf(),
        ensures
            b == covers_fine(self.tree()),
    {
        let mut sym: usize = 0;
        while sym < FINE_RANGE as usize
            invariant
                self.wf(),
                sym <= FINE_RANGE,
                forall|k: int| 0 <= k < sym ==> (#[trigger] tree_code(self.tree(), k)) is Some,
            decreases FINE_RANGE - sym,
        {
            proof {
                assert(code_entry(self.codes@, sym as int, tree_code(self.tree@, sym as int)));
                lemma_code_len(self.tree@, 0, MAX_CODE_BITS as nat, sym as int);
            }
            if sym >= self.codes.len() || self.codes[sym].1 == 0 {
                assert(tree_code(self.tree(), sym as int) is None);
                return false;
            }
            sym = sym + 1;
        }
        true
    }

    /// Write the code of a symbol.
    pub fn put(&self, w: &mut BitWriter, sym: i32)
        requires
            self.wf(),
            old(w).wf(),
            tree_code(self.tree(), sym as int) is Some,
        ensures
            final(w).wf(),
            final(w)@ == old(w)@ + tree_code(self.tree(), sym as int)->0,
    {
        proof {
            assert(code_entry(self.codes@, sym as int, tree_code(self.tree@, sym as int)));
            lemma_code_len(self.tree@, 0, MAX_CODE_BITS as nat, sym as int);
        }
        let (code, len) = self.codes[sym as usize];
        w.write(code, len as u32);
    }
}

/// The codes of a tree that ends within `depth` bits have at most that many.
pub proof fn lemma_code_len(t: Tree, node: int, depth: nat, sym: int)
    requires
        tree_ok(t, node, depth),
    ensures
        code_of(t, node, depth, sym) matches Some(c) ==> 1 <= c.len() <= depth,
    decreases depth,
{
    if branch(t, node, true) >= 0 {
        lemma_code_len(t, branch(t, node, true) as int, (depth - 1) as nat, sym);
    }
    if branch(t, node, false) >= 0 {
        lemma_code_len(t, branch(t, node, false) as int, (depth - 1) as nat, sym);
    }
}

/// The first band's code of a row with gain code `q`: the difference to the center.
pub open spec fn first_code(q: i32) -> i32 {
    ((q - FINE_CENTER) % (FINE_RANGE as int)) as i32
}

/// The symbols of a row: all bands carry the same value, so the differences are zero.
pub open spec fn row_symbols(q: i32) -> Seq<i32> {
    Seq::new(
        ENC_BANDS as nat,
        |i: int|
            if i == 0 {
                first_code(q)
            } else {
                0
            },
    )
}

/// The rows of an object's matrix.
pub open spec fn object_rows(m: [i32; 5]) -> Seq<Seq<i32>> {
    Seq::new(5, |ch: int| row_symbols(m[ch]))
}

/// The codes of symbols.
pub open spec fn symbols_bits(t: Tree, symbols: Seq<i32>) -> Seq<bool>
    decreases symbols.len(),
{
    if symbols.len() == 0 {
        Seq::empty()
    } else {
        tree_code(t, symbols[0] as int)->0 + symbols_bits(t, symbols.skip(1))
    }
}

/// The codes of rows.
pub open spec fn rows_bits(t: Tree, rows: Seq<Seq<i32>>) -> Seq<bool>
    decreases rows.len(),
{
    if rows.len() == 0 {
        Seq::empty()
    } else {
        symbols_bits(t, rows[0]) + rows_bits(t, rows.skip(1))
    }
}

/// The codes of the objects' matrices.
pub open spec fn data_bits(t: Tree, codes: Seq<[i32; 5]>) -> Seq<bool>
    decreases codes.len(),
{
    if codes.len() == 0 {
        Seq::empty()
    } else {
        rows_bits(t, object_rows(codes[0])) + data_bits(t, codes.skip(1))
    }
}

/// The info of an object: present, band index, full matrix, fine table, no steep slope, one data
/// point.
pub open spec fn object_info() -> Seq<bool> {
    seq![true] + bits::be(ENC_BANDS_IDX as nat, 3) + seq![false] + bits::be(1, 1) + seq![false] + bits::be(0, 1)
}

pub open spec fn infos_bits(n: nat) -> Seq<bool>
    decreases n,
{
    if n == 0 {
        Seq::empty()
    } else {
        infos_bits((n - 1) as nat) + object_info()
    }
}

/// Header and frame info: downmix configuration 0, the object count less one, no extension, unity
/// gain, sequence counter.
pub open spec fn head_bits(n: nat, seq: u16) -> Seq<bool> {
    bits::be(0, 3) + bits::be((n - 1) as nat, 6) + bits::be(0, 3) + bits::be(4, 3) + bits::be(0, 5) + bits::be((seq % 1024) as nat, 10)
}

/// A JOC payload with the gain codes `codes` of each object for the channels L, R, C, Ls, Rs.
pub open spec fn joc_bits(t: Tree, codes: Seq<[i32; 5]>, seq: u16) -> Seq<bool> {
    head_bits(codes.len(), seq) + infos_bits(codes.len()) + data_bits(t, codes)
}

/// Every fine symbol has a code.
pub open spec fn covers_fine(t: Tree) -> bool {
    forall|sym: int| 0 <= sym < FINE_RANGE ==> (#[trigger] tree_code(t, sym)) is Some
}

/// Gain codes in range.
pub open spec fn codes_ok(codes: Seq<[i32; 5]>) -> bool {
    forall|i: int, ch: int|
        0 <= i < codes.len() && 0 <= ch < 5 ==> 0 <= #[trigger] codes[i][ch] < FINE_RANGE
}

/// Writes a row whose bands all carry the gain code `q`.
fn write_row(w: &mut BitWriter, enc: &HuffEnc, q: i32)
    requires
        old(w).wf(),
        enc.wf(),
        covers_fine(enc.tree()),
        0 <= q < FINE_RANGE,
    ensures
        final(w).wf(),
        final(w)@ == old(w)@ + symbols_bits(enc.tree(), row_symbols(q)),
{
    let ghost t = enc.tree();
    let ghost row = row_symbols(q);
    let v0: i32 = if q >= FINE_CENTER {
        q - FINE_CENTER
    } else {
        q - FINE_CENTER + FINE_RANGE
    };
    assert(v0 == first_code(q));
    let mut i: usize = 0;
    assert(row.skip(0) =~= row);
    while i < ENC_BANDS
        invariant
            i <= ENC_BANDS,
            w.wf(),
            enc.wf(),
            t == enc.tree(),
            covers_fine(t),
            row == row_symbols(q),
            v0 == first_code(q),
            0 <= v0 < FINE_RANGE,
            w@ + symbols_bits(t, row.skip(i as int)) == old(w)@ + symbols_bits(t, row),
        decreases ENC_BANDS - i,
    {
        let ghost before = w@;
        let ghost rest = row.skip(i as int);
        let v: i32 = if i == 0 {
            v0
        } else {
            0
        };
        assert(rest[0] == v);
        assert(tree_code(t, v as int) is Some);
        enc.put(w, v);
        proof {
            assert(rest.skip(1) =~= row.skip(i + 1));
            let c = tree_code(t, v as int)->0;
            assert(before + (c + symbols_bits(t, row.skip(i + 1))) =~= w@ + symbols_bits(
                t,
                row.skip(i + 1),
            ));
        }
        i = i + 1;
    }
    assert(w@ + symbols_bits(t, row.skip(i as int)) =~= w@);
}

/// Writes an object's matrix.
fn write_object(w: &mut BitWriter, enc: &HuffEnc, m: &[i32; 5])
    requires
        old(w).wf(),
        enc.wf(),
        covers_fine(enc.tree()),
        forall|ch: int| 0 <= ch < 5 ==> 0 <= #[trigger] m[ch] < FINE_RANGE,
    ensures
        final(w).wf(),
        final(w)@ == old(w)@ + rows_bits(enc.tree(), object_rows(*m)),
{
    let ghost t = enc.tree();
    let ghost rows = object_rows(*m);
    let mut ch: usize = 0;
    assert(rows.skip(0) =~= rows);
    while ch < 5
        invariant
            ch <= 5,
            w.wf(),
            enc.wf(),
            t == enc.tree(),
            covers_fine(t),
            rows == object_rows(*m),
            forall|k: int| 0 <= k < 5 ==> 0 <= #[trigger] m[k] < FINE_RANGE,
            w@ + rows_bits(t, rows.skip(ch as int)) == old(w)@ + rows_bits(t, rows),
        decreases 5 - ch,
    {
        let ghost before = w@;
        let ghost rest = rows.skip(ch as int);
        assert(0 <= m[ch as int] < FINE_RANGE);
        write_row(w, enc, m[ch]);
        proof {
            assert(rest[0] == row_symbols(m[ch as int]));
            assert(rest.skip(1) =~= rows.skip(ch + 1));
            assert(before + (symbols_bits(t, rest[0]) + rows_bits(t, rows.skip(ch + 1))) =~= w@
                + rows_bits(t, rows.skip(ch + 1)));
        }
        ch = ch + 1;
    }
    assert(w@ + rows_bits(t, rows.skip(ch as int)) =~= w@);
}

/// Encode one JOC frame. `codes[obj][ch]` = fine gain code of the broadband mixing gain that
/// reconstructs dynamic object `obj` from core channel `ch` (order L, R, C, Ls, Rs, for
/// joc_dmx_config_idx 0; the LFE is bypassed and must not be included). All parameter bands carry the
/// same broadband value, so the band-differential codes after the first band are zeros. `enc` encodes
/// the fine table.
pub fn encode_joc(codes: &[[i32; 5]], seq: u16, enc: &HuffEnc) -> (out: Vec<u8>)
    requires
        1 <= codes@.len() <= 64,
        codes_ok(codes@),
        enc.wf(),
        covers_fine(enc.tree()),
    ensures
        out@ == bits::pack(joc_bits(enc.tree(), codes@, seq)),
{
    let ghost t = enc.tree();
    let n = codes.len();
    let mut w = BitWriter::new();
    w.write(0, 3);  // joc_dmx_config_idx = 0 (5.1 core: L R C Ls Rs + bypassed LFE)
    w.write((n - 1) as u32, 6);
    w.write(0, 3);  // joc_ext_config_idx = 0
    w.write(4, 3);  // unity gain
    w.write(0, 5);
    w.write((seq % 1024) as u32, 10);  // joc_sequence_counter
    let ghost head = head_bits(n as nat, seq);
    assert(w@ =~= head);
    let mut i: usize = 0;
    assert(w@ =~= head + infos_bits(0));
    while i < n
        invariant
            i <= n,
            w.wf(),
            w@ == head + infos_bits(i as nat),
        decreases n - i,
    {
        let ghost before = w@;
        w.bit(1);  // b_joc_obj_present
        w.write(ENC_BANDS_IDX, 3);
        w.bit(0);  // b_joc_sparse = 0: full matrix
        w.write(1, 1);  // joc_quant_table_idx = fine
        w.bit(0);  // b_joc_slope (steep) = 0
        w.write(0, 1);  // joc_num_data_points - 1 = 0
        assert(w@ =~= before + object_info());
        i = i + 1;
        assert(w@ =~= head + infos_bits(i as nat));
    }
    let ghost front = w@;
    let mut k: usize = 0;
    assert(codes@.skip(0) =~= codes@);
    while k < n
        invariant
            k <= n,
            n == codes@.len(),
            w.wf(),
            enc.wf(),
            t == enc.tree(),
            covers_fine(t),
            codes_ok(codes@),
            w@ + data_bits(t, codes@.skip(k as int)) == front + data_bits(t, codes@),
        decreases n - k,
    {
        let ghost before = w@;
        let ghost rest = codes@.skip(k as int);
        let m = codes[k];
        assert forall|ch: int| 0 <= ch < 5 implies 0 <= #[trigger] m[ch] < FINE_RANGE by {
            assert(0 <= codes@[k as int][ch] < FINE_RANGE);
        }
        write_object(&mut w, enc, &m);
        proof {
            assert(rest[0] == m);
            assert(rest.skip(1) =~= codes@.skip(k + 1));
            assert(before + (rows_bits(t, object_rows(m)) + data_bits(t, codes@.skip(k + 1)))
                =~= w@ + data_bits(t, codes@.skip(k + 1)));
        }
        k = k + 1;
    }
    assert(w@ + data_bits(t, codes@.skip(k as int)) =~= w@);
    assert(w@ =~= joc_bits(t, codes@, seq));
    w.into_bytes()
}

/// The encoder for the fine matrix table.
pub fn fine_mtx_encoder(tables: &JocTables) -> (e: HuffEnc)
    requires
        tree_ok(tables.fine_generic@, 0, MAX_CODE_BITS as nat),
    ensures
        e.wf(),
        e.tree() == tables.fine_generic@,
{
    HuffEnc::from_tree(&tables.fine_generic)
}

// ------------------------------------------------------------------ what is encoded decodes

/// A symbol's code, where it stands, spells out the symbol.
#[verifier::spinoff_prover]
proof fn lemma_huff(t: Tree, s: Seq<bool>, p: int, node: int, depth: nat, sym: int)
    requires
        tree_ok(t, node, depth),
        code_of(t, node, depth, sym) is Some,
        bits::has(s, p, code_of(t, node, depth, sym)->0),
        -0x8000_0000 <= sym < 0x8000_0000,
    ensures
        huff_at(t, s, p, node) == Ok::<(i32, int), JocError>(
            (sym as i32, p + code_of(t, node, depth, sym)->0.len()),
        ),
    decreases depth,
{
    let c = code_of(t, node, depth, sym)->0;
    let b = code_through(t, node, depth, sym, true) is Some;
    let next = branch(t, node, b);
    assert(code_through(t, node, depth, sym, b) == Some(c));
    if next < 0 {
        assert(c =~= seq![b]);
        bits::lemma_has_bit(s, p, b);
        assert(branch(t, node, bits::bit(s, p)) == next);
        assert(sym == -next - 1);
        assert(huff_at(t, s, p, node) == Ok::<(i32, int), JocError>((sym as i32, p + 1)));
    } else {
        let below = code_of(t, next as int, (depth - 1) as nat, sym)->0;
        assert(c == seq![b] + below);
        bits::lemma_has_split(s, p, seq![b], below);
        bits::lemma_has_bit(s, p, b);
        lemma_code_len(t, next as int, (depth - 1) as nat, sym);
        assert(p + 1 + below.len() <= s.len()) by {
            assert(below.len() >= 1);
        }
        assert(tree_ok(t, next as int, (depth - 1) as nat));
        assert(next < t.len());
        assert(branch(t, node, bits::bit(s, p)) == next);
        assert(huff_at(t, s, p, node) == huff_at(t, s, p + 1, next as int));
        lemma_huff(t, s, p + 1, next as int, (depth - 1) as nat, sym);
    }
}

/// Symbols that have codes.
spec fn coded(t: Tree, symbols: Seq<i32>) -> bool {
    forall|i: int| 0 <= i < symbols.len() ==> tree_code(t, #[trigger] symbols[i] as int) is Some
}

proof fn lemma_row(t: Tree, s: Seq<bool>, p: int, acc: Seq<i32>, rest: Seq<i32>, n: nat)
    requires
        tree_ok(t, 0, MAX_CODE_BITS as nat),
        coded(t, rest),
        acc.len() + rest.len() == n,
        bits::has(s, p, symbols_bits(t, rest)),
    ensures
        row_from(t, s, p, acc, n) == Ok::<(Seq<i32>, int), JocError>(
            (acc + rest, p + symbols_bits(t, rest).len()),
        ),
    decreases rest.len(),
{
    if rest.len() == 0 {
        assert(acc + rest =~= acc);
    } else {
        let c = tree_code(t, rest[0] as int)->0;
        let more = rest.skip(1);
        bits::lemma_has_split(s, p, c, symbols_bits(t, more));
        lemma_huff(t, s, p, 0, MAX_CODE_BITS as nat, rest[0] as int);
        assert forall|i: int| 0 <= i < more.len() implies tree_code(t, #[trigger] more[i] as int) is Some by {
            assert(more[i] == rest[i + 1]);
        }
        lemma_row(t, s, p + c.len(), acc.push(rest[0]), more, n);
        assert(acc.push(rest[0]) + more =~= acc + rest);
    }
}

proof fn lemma_matrix(
    t: Tree,
    s: Seq<bool>,
    p: int,
    acc: Seq<Seq<i32>>,
    rest: Seq<Seq<i32>>,
    rows: nat,
    bands: nat,
)
    requires
        tree_ok(t, 0, MAX_CODE_BITS as nat),
        forall|i: int|
            0 <= i < rest.len() ==> (#[trigger] rest[i]).len() == bands && coded(t, rest[i]),
        acc.len() + rest.len() == rows,
        bits::has(s, p, rows_bits(t, rest)),
    ensures
        matrix_from(t, s, p, acc, rows, bands) == Ok::<(Seq<Seq<i32>>, int), JocError>(
            (acc + rest, p + rows_bits(t, rest).len()),
        ),
    decreases rest.len(),
{
    if rest.len() == 0 {
        assert(acc + rest =~= acc);
    } else {
        let first = rest[0];
        let more = rest.skip(1);
        let b = symbols_bits(t, first);
        bits::lemma_has_split(s, p, b, rows_bits(t, more));
        lemma_row(t, s, p, Seq::empty(), first, bands);
        assert(Seq::<i32>::empty() + first =~= first);
        assert forall|i: int| 0 <= i < more.len() implies (#[trigger] more[i]).len() == bands
            && coded(t, more[i]) by {
            assert(more[i] == rest[i + 1]);
        }
        lemma_matrix(t, s, p + b.len(), acc.push(first), more, rows, bands);
        assert(acc.push(first) + more =~= acc + rest);
    }
}

/// An encoded object.
pub open spec fn encoded_info() -> JocInfo {
    JocInfo {
        active: true,
        bands_idx: ENC_BANDS_IDX as u8,
        bands: ENC_BANDS,
        sparse: false,
        quant: 1,
        steep_slope: false,
        data_points: 1,
        offset0: 0,
        offset1: 0,
    }
}

pub open spec fn encoded_object(m: [i32; 5]) -> ObjectView {
    ObjectView {
        info: encoded_info(),
        channels: Seq::empty(),
        vectors: Seq::empty(),
        matrix: seq![object_rows(m)],
    }
}

proof fn lemma_objects(
    tables: JocTables,
    s: Seq<bool>,
    p: int,
    infos: Seq<JocInfo>,
    acc: Seq<ObjectView>,
    rest: Seq<[i32; 5]>,
)
    requires
        tree_ok(tables.fine_generic@, 0, MAX_CODE_BITS as nat),
        covers_fine(tables.fine_generic@),
        codes_ok(rest),
        acc.len() + rest.len() == infos.len(),
        forall|i: int| 0 <= i < infos.len() ==> #[trigger] infos[i] == encoded_info(),
        bits::has(s, p, data_bits(tables.fine_generic@, rest)),
    ensures
        objects_from(tables, 5, s, p, infos, acc) == Ok::<(Seq<ObjectView>, int), JocError>(
            (
                acc + rest.map_values(|m: [i32; 5]| encoded_object(m)),
                p + data_bits(tables.fine_generic@, rest).len(),
            ),
        ),
    decreases rest.len(),
{
    let t = tables.fine_generic@;
    let made = rest.map_values(|m: [i32; 5]| encoded_object(m));
    if rest.len() == 0 {
        assert(acc + made =~= acc);
    } else {
        let m = rest[0];
        let more = rest.skip(1);
        let rows = object_rows(m);
        let b = rows_bits(t, rows);
        let none = Seq::<Seq<Seq<i32>>>::empty();
        bits::lemma_has_split(s, p, b, data_bits(t, more));
        assert forall|i: int| 0 <= i < rows.len() implies (#[trigger] rows[i]).len() == ENC_BANDS
            && coded(t, rows[i]) by {
            assert(0 <= rest[0][i] < FINE_RANGE);
            let row = rows[i];
            assert forall|k: int| 0 <= k < row.len() implies tree_code(t, #[trigger] row[k] as int) is Some by {
                assert(0 <= row[k] < FINE_RANGE);
            }
        }
        lemma_matrix(t, s, p, Seq::empty(), rows, 5, ENC_BANDS as nat);
        assert(Seq::<Seq<i32>>::empty() + rows =~= rows);
        let q = p + b.len();
        assert(points_from(t, s, q, none.push(rows), 1, 5, ENC_BANDS as nat) == Ok::<
            (Seq<Seq<Seq<i32>>>, int),
            JocError,
        >((none.push(rows), q)));
        assert(none.push(rows) =~= seq![rows]);
        assert(infos[acc.len() as int] == encoded_info());
        assert(object_at(tables, 5, s, p, encoded_info()) == Ok::<(ObjectView, int), JocError>(
            (encoded_object(m), q),
        ));
        assert forall|i: int, ch: int| 0 <= i < more.len() && 0 <= ch < 5 implies 0
            <= #[trigger] more[i][ch] < FINE_RANGE by {
            assert(0 <= rest[i + 1][ch] < FINE_RANGE);
        }
        lemma_objects(tables, s, q, infos, acc.push(encoded_object(m)), more);
        assert(acc.push(encoded_object(m)) + more.map_values(|m: [i32; 5]| encoded_object(m))
            =~= acc + made);
    }
}

/// An object's info reads back.
proof fn lemma_info(tables: JocTables, s: Seq<bool>, p: int)
    requires
        tables.num_bands[ENC_BANDS_IDX as int] == ENC_BANDS,
        bits::has(s, p, object_info()),
    ensures
        info_at(tables, s, p) == (encoded_info(), p + 8),
{
    let a0 = seq![true];
    let a1 = a0 + bits::be(ENC_BANDS_IDX as nat, 3);
    let a2 = a1 + seq![false];
    let a3 = a2 + bits::be(1, 1);
    let a4 = a3 + seq![false];
    bits::lemma_two_values();
    bits::lemma_be_len(ENC_BANDS_IDX as nat, 3);
    bits::lemma_be_len(1, 1);
    oamd::lemma_then_num(s, p, a4, 0, 1);
    oamd::lemma_then_bit(s, p, a3, false);
    oamd::lemma_then_num(s, p, a2, 1, 1);
    oamd::lemma_then_bit(s, p, a1, false);
    oamd::lemma_then_num(s, p, a0, ENC_BANDS_IDX as nat, 3);
    bits::lemma_has_bit(s, p, true);
}

proof fn lemma_infos(tables: JocTables, s: Seq<bool>, p: int, n: nat)
    requires
        tables.num_bands[ENC_BANDS_IDX as int] == ENC_BANDS,
        bits::has(s, p, infos_bits(n)),
    ensures
        infos_at(tables, s, p, n) == (Seq::new(n, |i: int| encoded_info()), p + 8 * n),
        infos_bits(n).len() == 8 * n,
    decreases n,
{
    if n == 0 {
        assert(Seq::new(0, |i: int| encoded_info()) =~= Seq::<JocInfo>::empty());
    } else {
        let m = (n - 1) as nat;
        bits::lemma_has_split(s, p, infos_bits(m), object_info());
        lemma_infos(tables, s, p, m);
        lemma_info(tables, s, p + 8 * m);
        bits::lemma_be_len(ENC_BANDS_IDX as nat, 3);
        bits::lemma_be_len(1, 1);
        bits::lemma_be_len(0, 1);
        assert(infos_at(tables, s, p, n).0 =~= Seq::new(n, |i: int| encoded_info()));
    }
}

proof fn lemma_head(s: Seq<bool>, n: nat, seq: u16)
    requires
        1 <= n <= 64,
        bits::has(s, 0, head_bits(n, seq)),
    ensures
        head_bits(n, seq).len() == 30,
        bits::field(s, 0, 3) == 0,
        bits::field(s, 3, 6) == n - 1,
        bits::field(s, 9, 3) == 0,
        bits::field(s, 12, 3) == 4,
        bits::field(s, 15, 5) == 0,
        bits::field(s, 20, 10) == seq % 1024,
{
    let v = (seq % 1024) as nat;
    let a0 = bits::be(0, 3);
    let a1 = a0 + bits::be((n - 1) as nat, 6);
    let a2 = a1 + bits::be(0, 3);
    let a3 = a2 + bits::be(4, 3);
    let a4 = a3 + bits::be(0, 5);
    bits::lemma_two_values();
    bits::lemma_be_len(0, 3);
    bits::lemma_be_len((n - 1) as nat, 6);
    bits::lemma_be_len(4, 3);
    bits::lemma_be_len(0, 5);
    bits::lemma_be_len(v, 10);
    oamd::lemma_then_num(s, 0, a4, v, 10);
    oamd::lemma_then_num(s, 0, a3, 0, 5);
    oamd::lemma_then_num(s, 0, a2, 4, 3);
    oamd::lemma_then_num(s, 0, a1, 0, 3);
    oamd::lemma_then_num(s, 0, a0, (n - 1) as nat, 6);
    bits::lemma_field_small(s, 0, 0, 3);
}

/// What `encode_joc` writes, `decode_joc` gives back: for each object one data point, whose rows carry
/// the gain codes as differences to the center, all bands being alike; and only padding is left over.
pub proof fn law_joc_roundtrip(tables: JocTables, codes: Seq<[i32; 5]>, seq: u16)
    requires
        1 <= codes.len() <= 64,
        codes_ok(codes),
        tree_ok(tables.fine_generic@, 0, MAX_CODE_BITS as nat),
        covers_fine(tables.fine_generic@),
        tables.num_bands[ENC_BANDS_IDX as int] == ENC_BANDS,
    ensures
        frame_at(tables, bits::bits_of(bits::pack(joc_bits(tables.fine_generic@, codes, seq)))) == Ok::<
            FrameView,
            JocError,
        >(
            FrameView {
                dmx_config: 0,
                channel_count: 5,
                object_count: codes.len() as int,
                gain_pow: 4,
                gain_frac: 0,
                seq: (seq % 1024) as u16,
                objects: codes.map_values(|m: [i32; 5]| encoded_object(m)),
                bits_used: joc_bits(tables.fine_generic@, codes, seq).len() as int,
            },
        ),
        bits::bits_of(bits::pack(joc_bits(tables.fine_generic@, codes, seq))).len() - joc_bits(
            tables.fine_generic@,
            codes,
            seq,
        ).len() < 8,
{
    let t = tables.fine_generic@;
    let n = codes.len();
    let j = joc_bits(t, codes, seq);
    let s = bits::bits_of(bits::pack(j));
    bits::lemma_pack_bits(j);
    bits::lemma_has_refl(j, bits::zeros(bits::padding(j.len())));
    bits::lemma_has_split(s, 0, head_bits(n, seq) + infos_bits(n), data_bits(t, codes));
    bits::lemma_has_split(s, 0, head_bits(n, seq), infos_bits(n));
    lemma_head(s, n, seq);
    lemma_infos(tables, s, 30, n);
    let infos = Seq::new(n, |i: int| encoded_info());
    lemma_objects(tables, s, 30 + 8 * n as int, infos, Seq::empty(), codes);
    let made = codes.map_values(|m: [i32; 5]| encoded_object(m));
    assert(Seq::<ObjectView>::empty() + made =~= made);
}

// ------------------------------------------------------------------ finding a container

/// An EMDF container seems to start at bit `i`: the syncword, and a length that is not zero and fits.
pub open spec fn emdf_at(s: Seq<bool>, i: int) -> bool {
    &&& bits::field(s, i, 16) == EMDF_SYNC
    &&& i + 32 <= s.len()
    &&& bits::field(s, i + 16, 16) != 0
    &&& i + 32 + 8 * bits::field(s, i + 16, 16) <= s.len()
}

/// The first bit from `i` on at which a container seems to start.
pub open spec fn first_emdf(s: Seq<bool>, i: int) -> Option<int>
    decreases s.len() - i,
{
    if i + 16 >= s.len() {
        None
    } else if emdf_at(s, i) {
        Some(i)
    } else {
        first_emdf(s, i + 1)
    }
}

/// Bit-scan a whole buffer (e.g. a raw E-AC-3 frame) for an EMDF sync at any bit offset: streams carry
/// the EMDF in an audio-block skip field, which is rarely byte-aligned. Returns (bit_offset,
/// byte-realigned copy of the rest of the buffer from that offset).
pub fn find_emdf_anywhere(frame: &[u8]) -> (r: Option<(usize, Vec<u8>)>)
    requires
        8 * frame@.len() + 0x10_0000 <= usize::MAX,
    ensures
        match r {
            Some((i, rest)) => first_emdf(bits::bits_of(frame@), 0) == Some(i as int) && rest@ == bits::pack(
                bits::bits_of(frame@).skip(i as int),
            ),
            None => first_emdf(bits::bits_of(frame@), 0) is None,
        },
{
    let ghost s = bits::bits_of(frame@);
    let total_bits = frame.len() * 8;
    let mut start: usize = 0;
    while start + 16 < total_bits
        invariant
            total_bits == s.len(),
            s == bits::bits_of(frame@),
            total_bits + 0x10_0000 <= usize::MAX,
            start <= total_bits,
            first_emdf(s, 0) == first_emdf(s, start as int),
        decreases total_bits - start,
    {
        let mut r = BitReader::at(frame, start);
        if r.read(16) == EMDF_SYNC as u32 && start + 32 <= total_bits {
            let len = r.read(16) as usize;
            if len != 0 && start + 32 + len * 8 <= total_bits {
                let mut w = BitWriter::new();
                w.copy_bits_from(frame, start, total_bits - start);
                assert(s.subrange(start as int, total_bits as int) =~= s.skip(start as int));
                assert(w@ =~= s.skip(start as int));
                return Some((start, w.into_bytes()));
            }
        }
        start = start + 1;
    }
    None
}

} // verus!
