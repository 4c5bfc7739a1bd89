//! E-AC-3 (Enhanced AC-3 / Dolby Digital Plus) syncframes: finding them in a byte stream and reading
//! their fixed header.

use crate::bits;
use crate::bits::BitReader;
use vstd::prelude::*;

pub use crate::bsi::{audfrm_start_bit, bsi_dump, read_addbsi, read_addbsi_raw};
pub use crate::crc::crc16;
pub use crate::inject::{
    inject_aux, inject_frame_full, inject_frame_skipfield, read_aux, splice_emdf_into_core,
};
pub use crate::stream::{inject_stream, parse_frames_io, transform_frames_io};

verus! {

/// First byte of the syncword.
pub const SYNC0: u8 = 0x0B;

/// Second byte of the syncword.
pub const SYNC1: u8 = 0x77;

/// E-AC-3 frame max size in bytes (frmsiz is 11 bits, so up to 2048 words).
pub const MAX_FRAME_BYTES: usize = 4096;

/// Parsed header of one E-AC-3 syncframe (only the fields needed to walk and classify frames).
#[derive(Debug, Clone, Copy, PartialEq, Eq, Structural)]
pub struct FrameInfo {
    /// Byte offset of the syncword in the stream.
    pub offset: usize,
    /// Total frame length in bytes.
    pub size: usize,
    /// Stream type: 0 = independent, 1 = dependent, 2 = AC-3-converted, 3 = reserved.
    pub strmtyp: u8,
    pub substreamid: u8,
    /// Number of audio blocks (1/2/3/6).
    pub blocks: u8,
    pub fscod: u8,
    pub sample_rate: u32,
    /// Channel mode (acmod).
    pub acmod: u8,
    pub lfe: bool,
    /// Bitstream id / decoder version: 16 = E-AC-3, <=8 = AC-3.
    pub bsid: u8,
}

/// Audio blocks per syncframe for a block count code.
pub open spec fn block_count(numblkscod: nat) -> u8 {
    if numblkscod == 0 {
        1
    } else if numblkscod == 1 {
        2
    } else if numblkscod == 2 {
        3
    } else {
        6
    }
}

/// Sample rate in Hz for a rate code; 3 stands for a reduced rate and has none here.
pub open spec fn rate_of(fscod: nat) -> u32 {
    if fscod == 0 {
        48000
    } else if fscod == 1 {
        44100
    } else if fscod == 2 {
        32000
    } else {
        0
    }
}

/// Full-bandwidth channels of a channel mode.
pub open spec fn channels_of(acmod: u8) -> u8 {
    if acmod == 0 || acmod == 2 {
        2
    } else if acmod == 1 {
        1
    } else if acmod == 3 || acmod == 4 {
        3
    } else if acmod == 5 || acmod == 6 {
        4
    } else if acmod == 7 {
        5
    } else {
        0
    }
}

/// The header that the bits `s` of a frame spell out, for a frame at byte `off` of its stream.
pub open spec fn header_bits(s: Seq<bool>, off: int) -> FrameInfo {
    let fscod = bits::field(s, 32, 2);
    FrameInfo {
        offset: off as usize,
        size: (2 * (bits::field(s, 21, 11) + 1)) as usize,
        strmtyp: bits::field(s, 16, 2) as u8,
        substreamid: bits::field(s, 18, 3) as u8,
        blocks: if fscod == 3 {
            6
        } else {
            block_count(bits::field(s, 34, 2))
        },
        fscod: fscod as u8,
        sample_rate: rate_of(fscod),
        acmod: bits::field(s, 36, 3) as u8,
        lfe: bits::field(s, 39, 1) == 1,
        bsid: bits::field(s, 40, 5) as u8,
    }
}

/// The header of the frame at byte `off` of `data`.
pub open spec fn header_at(data: Seq<u8>, off: int) -> FrameInfo {
    header_bits(bits::bits_of(data.subrange(off, off + 6)), off)
}

/// A syncword stands at byte `i` of `data`.
pub open spec fn sync_at(data: Seq<u8>, i: int) -> bool {
    0 <= i && i + 2 <= data.len() && data[i] == SYNC0 && data[i + 1] == SYNC1
}

/// The first byte from `from` on at which a syncword stands.
pub open spec fn next_sync(data: Seq<u8>, from: int) -> Option<int>
    decreases data.len() - from,
{
    if from + 2 > data.len() {
        None
    } else if sync_at(data, from) {
        Some(from)
    } else {
        next_sync(data, from + 1)
    }
}

/// Frame sizes are even and between 2 and `MAX_FRAME_BYTES`.
pub proof fn lemma_header_size(s: Seq<bool>, off: int)
    ensures
        2 <= header_bits(s, off).size <= MAX_FRAME_BYTES,
        header_bits(s, off).size % 2 == 0,
        header_bits(s, off).size == 2 * (bits::field(s, 21, 11) + 1),
{
    bits::lemma_field_bound(s, 21, 11);
    bits::lemma_two_values();
}

pub proof fn lemma_next_sync(data: Seq<u8>, from: int)
    requires
        0 <= from,
    ensures
        next_sync(data, from) matches Some(p) ==> from <= p && sync_at(data, p) && forall|i: int|
            from <= i < p ==> !#[trigger] sync_at(data, i),
        next_sync(data, from) is None ==> forall|i: int| from <= i ==> !#[trigger] sync_at(data, i),
    decreases data.len() - from,
{
    if from + 2 <= data.len() && !sync_at(data, from) {
        lemma_next_sync(data, from + 1);
    }
}

/// The frames of `data` from byte `off` on: at a syncword a frame starts, whose header says where it
/// ends; elsewhere the next syncword is looked for. The last frame may be cut off by the end.
pub open spec fn frames_from(data: Seq<u8>, off: int) -> Seq<FrameInfo>
    decreases
        (if off < data.len() {
            data.len() - off
        } else {
            0
        }),
{
    if off < 0 || off + 6 > data.len() {
        Seq::empty()
    } else if sync_at(data, off) {
        proof {
            lemma_header_size(bits::bits_of(data.subrange(off, off + 6)), off);
        }
        let f = header_at(data, off);
        seq![f] + frames_from(data, off + f.size)
    } else {
        proof {
            lemma_next_sync(data, off + 1);
        }
        match next_sync(data, off + 1) {
            Some(p) => frames_from(data, p),
            None => Seq::empty(),
        }
    }
}

/// Every frame of a stream.
pub open spec fn frames_of(data: Seq<u8>) -> Seq<FrameInfo> {
    frames_from(data, 0)
}

impl FrameInfo {
    /// Full-bandwidth channel count (excludes LFE) implied by acmod.
    pub fn full_channels(&self) -> (n: u8)
        ensures
            n == channels_of(self.acmod),
    {
        match self.acmod {
            0 => 2,  // 1+1 dual mono
            1 => 1,  // 1/0 C
            2 => 2,  // 2/0 L R
            3 => 3,  // 3/0 L C R
            4 => 3,  // 2/1 L R S
            5 => 4,  // 3/1 L C R S
            6 => 4,  // 2/2 L R Ls Rs
            7 => 5,  // 3/2 L C R Ls Rs
            _ => 0,
        }
    }

    /// Samples represented by this frame (blocks * 256).
    pub fn samples(&self) -> (n: u32)
        ensures
            n == self.blocks * 256,
    {
        self.blocks as u32 * 256
    }
}

/// Decode one syncframe's header, at a byte with at least 6 bytes available from there.
pub fn read_frame_header(data: &[u8], off: usize) -> (f: FrameInfo)
    requires
        off + 6 <= data@.len(),
    ensures
        f == header_at(data@, off as int),
        2 <= f.size <= MAX_FRAME_BYTES,
{
    assert(data.len() == data@.len());
    let head = &data[off..off + 6];
    let mut r = BitReader::new(head);
    let _sync = r.read(16);
    let strmtyp = r.read(2) as u8;
    let substreamid = r.read(3) as u8;
    let words = r.read(11) as usize + 1;  // words_per_syncframe
    let size: usize = words * 2;
    let fscod = r.read(2) as u8;
    let numblkscod: u32 = r.read(2);
    let acmod = r.read(3) as u8;
    let lfe = r.read(1) == 1;
    let bsid = r.read(5) as u8;
    let blocks: u8 = if fscod == 3 {
        6
    } else {
        match numblkscod {
            0 => 1,
            1 => 2,
            2 => 3,
            _ => 6,
        }
    };
    let sample_rate: u32 = match fscod {
        0 => 48000,
        1 => 44100,
        2 => 32000,
        _ => 0,
    };
    FrameInfo {
        offset: off,
        size,
        strmtyp,
        substreamid,
        blocks,
        fscod,
        sample_rate,
        acmod,
        lfe,
        bsid,
    }
}

/// The first syncword at or after byte `from`.
pub fn find_sync(data: &[u8], from: usize) -> (r: Option<usize>)
    ensures
        match r {
            Some(p) => next_sync(data@, from as int) == Some(p as int) && from <= p && p + 2 <= data@.len(),
            None => next_sync(data@, from as int) is None,
        },
{
    let mut i: usize = from;
    while i < data.len() && data.len() - i >= 2
        invariant
            from <= i,
            next_sync(data@, from as int) == next_sync(data@, i as int),
        decreases data.len() - i,
    {
        if data[i] == SYNC0 && data[i + 1] == SYNC1 {
            return Some(i);
        }
        i = i + 1;
    }
    None
}

/// Parse every E-AC-3 syncframe in a raw elementary stream.
pub fn parse_frames(data: &[u8]) -> (frames: Vec<FrameInfo>)
    ensures
        frames@ == frames_of(data@),
{
    let mut frames: Vec<FrameInfo> = Vec::new();
    let mut off: usize = 0;
    assert(frames@ + frames_from(data@, 0) =~= frames_of(data@));
    while data.len() - off >= 6
        invariant_except_break
            off <= data@.len(),
            frames@ + frames_from(data@, off as int) == frames_of(data@),
        ensures
            frames@ == frames_of(data@),
        decreases data.len() - off,
    {
        if !(data[off] == SYNC0 && data[off + 1] == SYNC1) {
            proof {
                lemma_next_sync(data@, off + 1);
            }
            match find_sync(data, off + 1) {
                Some(p) => {
                    off = p;
                    continue ;
                },
                None => {
                    assert(frames@ + Seq::<FrameInfo>::empty() =~= frames@);
                    break ;
                },
            }
        }
        let info = read_frame_header(data, off);
        let size = info.size;
        let ghost before = frames@;
        frames.push(info);
        proof {
            assert(frames_from(data@, off as int) == seq![info] + frames_from(
                data@,
                off + size,
            ));
            assert(before + (seq![info] + frames_from(data@, off + size)) =~= frames@
                + frames_from(data@, off + size));
        }
        if size > data.len() - off {
            assert(frames@ + Seq::<FrameInfo>::empty() =~= frames@);
            break ;
        }
        off = off + size;
    }
    frames
}

} // verus!
