//! Digests over pseudo-random inputs. `extras/model.py`, a model of the formats that shares no code with
//! the library, prints the expected values.

use damf2joc::bsi::{
    audfrm_start_bit, bsi_addbsie_pos, bsi_dump, bsi_infomdate_pos, read_addbsi_raw,
};
use damf2joc::eac3::{parse_frames, read_frame_header};
use damf2joc::emdf::{
    decode_emdf_oamd, extract_emdf_payloads, find_protection, list_emdf_payloads,
    verify_emdf_protection, wrap_emdf, FoundProtection, Protection, PAYLOAD_OAMD,
};
use damf2joc::inject::read_aux;
use damf2joc::joc::{decode_joc, find_emdf_anywhere, JocError, JocTables};
use damf2joc::oamd::{dump_oamd_verbose, encode_oamd, ObjectCode};
use damf2joc::protect::PublicCrcProtector;

struct Rng(u64);

impl Rng {
    fn next(&mut self) -> usize {
        self.0 = self.0.wrapping_mul(6364136223846793005).wrapping_add(1442695040888963407);
        (self.0 >> 33) as usize
    }

    fn below(&mut self, n: usize) -> usize {
        self.next() % n
    }

    fn bytes(&mut self, n: usize) -> Vec<u8> {
        (0..n).map(|_| self.next() as u8).collect()
    }
}

struct Digest(u64);

impl Digest {
    fn new() -> Self {
        Digest(0xcbf29ce484222325)
    }

    fn put(&mut self, v: usize) {
        self.0 = (self.0 ^ v as u64).wrapping_mul(0x100000001b3);
    }

    fn all(&mut self, bytes: &[u8]) {
        for b in bytes {
            self.put(*b as usize);
        }
    }
}

/// Bits, most significant first.
struct Bits(Vec<u8>);

impl Bits {
    fn put(&mut self, v: usize, n: usize) {
        for i in (0..n).rev() {
            self.0.push(((v >> i) & 1) as u8);
        }
    }

    fn pack(&self) -> Vec<u8> {
        self.0.chunks(8).map(|c| (0..8).fold(0, |v, i| 2 * v + c.get(i).unwrap_or(&0))).collect()
    }
}

/// Everything that is read from a container.
fn container_digest(h: &mut Digest, d: &[u8]) {
    let (n, list) = list_emdf_payloads(d).unwrap();
    h.put(n);
    h.put(list.len());
    for (id, size) in list {
        h.put(id as usize);
        h.put(size);
    }
    let payloads = extract_emdf_payloads(d).unwrap();
    h.put(payloads.len());
    for (id, bytes) in payloads {
        h.put(id as usize);
        h.put(bytes.len());
        h.all(&bytes);
    }
    match decode_emdf_oamd(d) {
        None => h.put(7777),
        Some(o) => {
            h.put(o.object_count);
            h.put(o.bed_count);
            h.put(o.objects.len());
            for p in o.objects {
                h.put(p.px as usize);
                h.put(p.py as usize);
                h.put(p.pz as usize);
                h.put(p.is_bed as usize);
            }
        }
    }
    if let Some(FoundProtection::At { start, values, prim_bits, .. }) = find_protection(d) {
        if values + prim_bits as usize > 8 * (d.len() - start) {
            h.put(3);
            return;
        }
    }
    match verify_emdf_protection(d).unwrap() {
        Protection::RanOff => h.put(1),
        Protection::Overran => h.put(2),
        Protection::Checked(r) => {
            h.put(r.prim_bits as usize);
            h.put(r.sec_bits as usize);
            h.put(r.protection_start);
            h.put(r.stored_prim as usize);
            h.put(r.our_prim as usize);
            h.put(r.stored_sec as usize);
            h.put(r.our_sec as usize);
            h.put(r.container.len());
            h.all(&r.container);
        }
    }
}

#[test]
fn random_containers() {
    let mut h = Digest::new();
    let mut rng = Rng(1);
    for _ in 0..400 {
        let n = 20 + rng.below(100);
        let mut d = rng.bytes(n);
        let at = rng.below(3);
        d[at] = 0x58;
        d[at + 1] = 0x38;
        if rng.below(2) == 0 {
            d[at + 4] = (d[at + 4] & 0xF8) | 2;
            d[at + 5] = (d[at + 5] & 0x3F) | 0xC0;
        }
        container_digest(&mut h, &d);
    }
    assert_eq!(h.0, 0x65898f84db4eef7f);
}

/// A well-formed container with random headers.
fn container(rng: &mut Rng) -> Vec<u8> {
    let mut w = Bits(Vec::new());
    w.put(0x5838, 16);
    w.put(rng.below(65536), 16);
    w.put(rng.below(32), 5);
    for _ in 0..rng.below(4) {
        let id = if rng.below(3) != 0 { 1 + rng.below(31) } else { 11 };
        w.put(id, 5);
        let offset = rng.below(2);
        w.put(offset, 1);
        if offset == 1 {
            w.put(rng.below(4096), 12);
        }
        if rng.below(2) == 1 {
            w.put(1, 1);
            w.put(rng.below(2048), 11);
            w.put(1, 1);
            w.put(rng.below(2048), 11);
        }
        w.put(0, 1);
        if rng.below(2) == 1 {
            w.put(1, 1);
            w.put(rng.below(4), 2);
        }
        w.put(0, 1);
        if rng.below(2) == 1 {
            w.put(1, 1);
            w.put(rng.below(256), 8);
        } else {
            w.put(0, 1);
        }
        if rng.below(2) == 1 {
            w.put(1, 1);
        } else {
            w.put(0, 1);
            if offset == 1 {
                w.put(rng.below(128), 7);
            } else if rng.below(2) == 1 {
                w.put(1, 1);
                w.put(rng.below(512), 9);
            } else {
                w.put(0, 1);
            }
        }
        let n = rng.below(30);
        w.put(n, 8);
        w.put(0, 1);
        for _ in 0..n {
            w.put(rng.below(256), 8);
        }
    }
    w.put(0, 5);
    w.put(rng.below(16), 4);
    for _ in 0..rng.below(40) {
        w.put(rng.below(256), 8);
    }
    w.pack()
}

#[test]
fn structured_containers() {
    let mut h = Digest::new();
    let mut rng = Rng(11);
    for _ in 0..400 {
        let d = container(&mut rng);
        container_digest(&mut h, &d);
    }
    assert_eq!(h.0, 0x4c204518b2e2345b);
}

#[test]
fn random_oamd() {
    let mut h = Digest::new();
    let mut rng = Rng(2);
    for _ in 0..150 {
        let n = 10 + rng.below(200);
        let d = dump_oamd_verbose(&rng.bytes(n));
        h.put(d.object_count);
        h.put(d.lfe as usize);
        h.put(d.elements.len());
        for e in d.elements {
            h.put(e.id as usize);
            h.put(e.size as usize);
            h.put(e.blocks.len());
            h.put(e.used_end);
            h.put(e.end);
        }
    }
    assert_eq!(h.0, 0xba9db39b6271504d);
}

#[test]
fn random_frames() {
    let mut h = Digest::new();
    let mut rng = Rng(3);
    for _ in 0..600 {
        let n = 70 + rng.below(60);
        let mut d = rng.bytes(n);
        d[0] = 0x0B;
        d[1] = 0x77;
        if rng.below(4) != 0 {
            d[5] = (d[5] & 7) | 0x80;
        }
        if rng.below(3) == 0 {
            d[2] &= 0x3F;
        }
        let i = read_frame_header(&d, 0);
        for v in [i.size, i.strmtyp as usize, i.substreamid as usize, i.blocks as usize] {
            h.put(v);
        }
        for v in [i.fscod as usize, i.sample_rate as usize, i.acmod as usize, i.lfe as usize] {
            h.put(v);
        }
        h.put(i.bsid as usize);
        match bsi_dump(&d, &i) {
            None => h.put(9),
            Some(o) => {
                let (infopos, infomdate) = bsi_infomdate_pos(&d, &i).unwrap();
                let (addpos, addbsie) = bsi_addbsie_pos(&d, &i).unwrap();
                assert_eq!(o.info.is_some(), infomdate);
                assert_eq!(o.addbsi, read_addbsi_raw(&d, &i).map(|r| r.1));
                h.put(o.dialnorm as usize);
                h.put(o.compre as usize);
                h.put(o.mixmdate as usize);
                h.put(infopos);
                h.put(infomdate as usize);
                h.put(addpos);
                h.put(addbsie as usize);
                h.put(audfrm_start_bit(&d, &i).unwrap());
                h.put(o.skipflde as usize);
                h.put(o.auxdatae as usize);
                if let Some(m) = o.mix {
                    h.put(m.pgmscle as usize);
                    h.put(m.extpgmscle as usize);
                    h.put(m.mixdef as usize);
                    h.put(m.frmmixcfginfoe as usize);
                }
                if let Some(m) = o.info {
                    h.put(m.bsmod as usize);
                    h.put(m.dsurexmod.unwrap_or(99) as usize);
                    h.put(m.audprodie as usize);
                }
                if let Some(b) = o.addbsi {
                    h.all(&b);
                }
            }
        }
        match read_aux(&d) {
            None => h.put(5),
            Some((bytes, n)) => {
                h.put(n);
                h.all(&bytes);
            }
        }
    }
    assert_eq!(h.0, 0x364c81f633867157);
}

#[test]
fn random_streams() {
    let mut h = Digest::new();
    let mut rng = Rng(4);
    for _ in 0..300 {
        let mut d: Vec<u8> = Vec::new();
        for _ in 0..rng.below(6) {
            let n = rng.below(5);
            d.extend(rng.bytes(n));
            let size = 2 * (2 + rng.below(12));
            let mut f = rng.bytes(size);
            f[0] = 0x0B;
            f[1] = 0x77;
            f[2] &= 0xF8;
            f[3] = (size / 2 - 1) as u8;
            d.extend(f);
        }
        let n = rng.below(8);
        d.extend(rng.bytes(n));
        let frames = parse_frames(&d);
        h.put(frames.len());
        for f in frames {
            h.put(f.offset);
            h.put(f.size);
            h.put(f.strmtyp as usize);
            h.put(f.acmod as usize);
        }
    }
    assert_eq!(h.0, 0xa5dd200907cfcf);
}

#[test]
fn random_places() {
    let mut h = Digest::new();
    let mut rng = Rng(5);
    for _ in 0..200 {
        let d = rng.bytes(40);
        let bit = rng.below(200);
        let mut w = Bits(Vec::new());
        for b in &d {
            w.put(*b as usize, 8);
        }
        let mut patch = Bits(Vec::new());
        patch.put(0x5838, 16);
        patch.put(rng.below(12), 16);
        w.0[bit..bit + 32].copy_from_slice(&patch.0);
        match find_emdf_anywhere(&w.pack()) {
            None => h.put(3),
            Some((at, rest)) => {
                h.put(at);
                h.all(&rest);
            }
        }
    }
    assert_eq!(h.0, 0xf49baaecc8d514d2);
}

/// A decode tree for `n` symbols: symbol 0 has the code 0, the others hang below the root's other
/// branch in a balanced tree.
fn tree(n: usize) -> Vec<[i32; 2]> {
    fn grow(t: &mut Vec<[i32; 2]>, lo: i32, hi: i32) -> i32 {
        if hi - lo == 1 {
            return -lo - 1;
        }
        let node = t.len();
        t.push([0, 0]);
        let mid = (lo + hi) / 2;
        let a = grow(t, lo, mid);
        let b = grow(t, mid, hi);
        t[node] = [a, b];
        node as i32
    }
    let mut t = vec![[0, 0]];
    let rest = grow(&mut t, 1, n as i32);
    t[0] = [-1, rest];
    t
}

#[test]
fn random_joc() {
    let t = JocTables {
        num_bands: [1, 3, 5, 7, 9, 12, 15, 23],
        fine_generic: tree(192),
        coarse_generic: tree(96),
        fine_coeff_sparse: tree(192),
        coarse_coeff_sparse: tree(96),
        pos_index_5ch: tree(5),
        pos_index_7ch: tree(7),
    };
    let mut h = Digest::new();
    let mut rng = Rng(12);
    for _ in 0..300 {
        let n = 30 + rng.below(1500);
        let mut d = rng.bytes(n);
        if rng.below(5) != 0 {
            d[0] &= if rng.below(2) != 0 { 0x7F } else { 0x1F };
        }
        if rng.below(4) != 0 {
            d[1] &= 0x0F;
            d[0] &= 0xE1;
        }
        match decode_joc(&d, &t) {
            Ok(f) => {
                for v in [f.dmx_config as usize, f.channel_count, f.object_count, f.gain_pow as usize] {
                    h.put(v);
                }
                for v in [f.gain_frac as usize, f.seq as usize, f.bits_used] {
                    h.put(v);
                }
                for o in f.objects {
                    h.put(o.active as usize);
                    h.put(o.bands_idx as usize);
                    h.put(o.bands);
                    h.put(o.sparse as usize);
                    h.put(o.quant as usize);
                    h.put(o.steep_slope as usize);
                    h.put(o.data_points);
                    h.put(o.timeslot_offsets[0]);
                    h.put(o.timeslot_offsets[1]);
                    for row in o.channels.iter().chain(&o.vectors).chain(o.matrix.iter().flatten()) {
                        for v in row {
                            h.put(*v as usize);
                        }
                    }
                }
            }
            Err(JocError::DmxConfig(c)) => h.put(1001 + c as usize),
            Err(JocError::ExtConfig(c)) => h.put(2001 + c as usize),
            Err(JocError::HuffPastEnd) => h.put(3001),
            Err(JocError::HuffNode(_)) => h.put(4001),
            Err(JocError::Overrun { used, end }) => {
                h.put(5001);
                h.put(used);
                h.put(end);
            }
        }
    }
    assert_eq!(h.0, 0xc4dec1424f0d4471);
}

#[test]
fn random_payloads() {
    let mut h = Digest::new();
    let mut rng = Rng(13);
    for _ in 0..120 {
        let n = rng.below(141);
        let lfe = rng.below(2) == 0 || n == 0;
        let objects: Vec<ObjectCode> = (0..n)
            .map(|_| {
                let px = rng.below(63) as u32;
                let py = rng.below(63) as u32;
                let pz = rng.below(16) as u32;
                ObjectCode { px, py, pz }
            })
            .collect();
        let oamd = encode_oamd(&objects, lfe);
        h.all(&oamd);
        let n = rng.below(700);
        let extra = rng.bytes(n);
        let id = 1 + rng.below(31) as u8;
        h.all(&wrap_emdf(&[(PAYLOAD_OAMD, oamd), (id, extra)], &PublicCrcProtector));
    }
    assert_eq!(h.0, 0x98d27577076ebd6c);
}
