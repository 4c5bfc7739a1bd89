use damf2joc::atmos::{
    atmos_addbsi, aux_matches, carriage, carry, check_aux_oamd, check_frame, check_walk,
    count_independent, count_substreams, frame_emdf, graft_core_frame, probe_joc, reference_metadata,
    seq_monotonic, signals, total_bytes, Carriage, FrameCheck, Signals, WalkCheck,
};
use damf2joc::bsi::read_addbsi;
use damf2joc::eac3::{crc16, parse_frames, FrameInfo};
use damf2joc::emdf::{encode_frame_emdf, extract_emdf_payloads, wrap_emdf, PAYLOAD_JOC, PAYLOAD_OAMD};
use damf2joc::inject::inject_aux;
use damf2joc::joc::{fine_mtx_encoder, JocError, JocTables};
use damf2joc::oamd::ObjectCode;
use damf2joc::protect::PublicCrcProtector;

/// A 5.1 frame with grouped exponents, bit allocation side information and mantissas in each block.
const CORE: &[&str] = &[
    "0b77013f3f87c01a10008db26852e6b410b134f069bf953a6f25020010218054a9b8b6ea9a657495",
    "43a70d5bda6aaec4aef955cb192b7d6d5bebb46126b0e9fa911fdb895ee587af9d577372e676eedd",
    "56921a609552a311f584375ca5b09947d5cdbb52f5fab25439ec00f9b6b933c691b7b31ee6c16535",
    "f7ad561a7b60ab8fa76fde8042b78a64e580891b3b0657c7a192a621b4d4158c50f49d76a3b5f440",
    "ceb388686c3daf09f574af6158831104fbf58e7ef7fbff052ae0bed94ce46b91d81a985ca0f47269",
    "ea30510229ac0e5436496bbe99b1c03c8c474b1041ac6119fc44bc3d87e90eff326d5b0e194b94b0",
    "0601016943850eb42869c37b75fd384ea126ac95fccf9f29fea006e36230c9c0c5873a3fc8daa477",
    "48e9099520e077ec4401c16d43520f4cbcf009ea4850b6929387a49132173b050f8d8e7eeb48c0f3",
    "ec5e912187a802e4dcee5f19ef2c6c72c035336d84b6104086511fc37b5e957ac9625c4d08254ea1",
    "dcaf11ebf410d0c4bb2bd42a9ea1af623da2f659888fd3be798b5927fe74da6c0ca1d4e7efc03f78",
    "38026bd68c5bb09c0eaecb0e7d0b981ce9fcadc343a3eab09e6150620d7065bebff5069721bed2c4",
    "f4d574ccee802e85d806d11f26af121d787612bebb49f83b6d29524b7efe2b684450f26a1cb2f698",
    "a31f0288daa13b3b01bbebf8d94b9ad01f35b85f94943720cd3ece7687c3747266c6b87f7ad62e90",
    "3f2f9fe5a7cac76d408070aeaa4d72c5c0dcbfb15d526c1187b317c88167bac5789629d9fc15b600",
    "0b9a676ad4910964032046fa8a541399a3c112d2ba1f43bb1e198e2e6c5eee597120e38f5140e0b4",
    "d36bcd0afd65cb10000000000000000000000000000000000000000000000000000000000000a9be",
];

fn bytes(lines: &[&str]) -> Vec<u8> {
    let text: String = lines.concat();
    (0..text.len() / 2).map(|i| u8::from_str_radix(&text[2 * i..2 * i + 2], 16).unwrap()).collect()
}

fn info(frame: &[u8]) -> FrameInfo {
    parse_frames(frame)[0]
}

/// A decode tree for `n` symbols: symbol 0 has the code 0, the others hang below the root's other
/// branch in a balanced tree.
fn tree(n: usize) -> Vec<[i32; 2]> {
    fn grow(t: &mut Vec<[i32; 2]>, lo: i32, hi: i32) -> i32 {
        if hi - lo == 1 {
            return -lo - 1;
        }
        let node = t.len();
        t.push([0, 0]);
        let mid = (lo + hi) / 2;
        let a = grow(t, lo, mid);
        let b = grow(t, mid, hi);
        t[node] = [a, b];
        node as i32
    }
    let mut t = vec![[0, 0]];
    let rest = grow(&mut t, 1, n as i32);
    t[0] = [-1, rest];
    t
}

fn tables() -> JocTables {
    JocTables {
        num_bands: [1, 3, 5, 7, 9, 12, 15, 23],
        fine_generic: tree(192),
        coarse_generic: tree(96),
        fine_coeff_sparse: tree(192),
        coarse_coeff_sparse: tree(96),
        pos_index_5ch: tree(5),
        pos_index_7ch: tree(7),
    }
}

fn objects(n: u32) -> Vec<ObjectCode> {
    (0..n).map(|i| ObjectCode { px: i % 63, py: 62 - i % 63, pz: i % 16 }).collect()
}

fn metadata(n: u32, seq: u16) -> Vec<u8> {
    let codes: Vec<[i32; 5]> = (0..n as i32).map(|i| [96 + i, 96, 95, 0, 191]).collect();
    frame_emdf(&objects(n), &codes, seq, &fine_mtx_encoder(&tables()), &PublicCrcProtector)
}

#[test]
fn complexity_is_at_most_sixteen() {
    assert_eq!(atmos_addbsi(14), vec![1, 14]);
    assert_eq!(atmos_addbsi(16), vec![1, 16]);
    assert_eq!(atmos_addbsi(17), vec![1, 16]);
}

#[test]
fn metadata_has_four_payloads() {
    let ps = extract_emdf_payloads(&metadata(13, 7)).unwrap();
    let ids: Vec<u8> = ps.iter().map(|p| p.0).collect();
    assert_eq!(ids, vec![PAYLOAD_OAMD, PAYLOAD_JOC, 2, 1]);
    assert_eq!(ps[2].1, vec![0x04, 0x94, 0x80]);
    assert_eq!(ps[3].1, vec![0x02, 0x00]);
}

#[test]
fn carried_metadata_checks() {
    let f = bytes(CORE);
    let i = info(&f);
    let emdf = metadata(13, 7);
    assert_eq!(carriage(&f, &i, 2, emdf.len()), Carriage::SkipField);
    let (out, skip) = carry(&f, &i, &atmos_addbsi(14), &emdf);
    assert!(skip);
    assert_eq!(crc16(&out[2..]), 0);
    let i2 = info(&out);
    let t = tables();
    assert_eq!(
        check_frame(&out, &i2, 14, 13, &t),
        FrameCheck { flag: true, oamd: true, joc: true }
    );
    assert_eq!(
        check_frame(&out, &i2, 13, 14, &t),
        FrameCheck { flag: false, oamd: false, joc: false }
    );
    assert_eq!(
        check_frame(&f, &i, 14, 13, &t),
        FrameCheck { flag: false, oamd: false, joc: false }
    );
    // The container is not in the auxiliary data.
    assert_eq!(signals(&out, &i2), Signals { flag: true, aux: false, oamd: false, joc: false });
    let p = probe_joc(&out, &t).unwrap();
    assert_eq!(p.payloads, extract_emdf_payloads(&emdf).unwrap());
    let (joc, n) = p.joc.unwrap();
    let joc = joc.unwrap();
    assert_eq!((joc.seq, joc.object_count, n), (7, 13, p.payloads[1].1.len()));
    assert!(probe_joc(&f, &t).is_none());
}

#[test]
fn carriage_at_the_tail() {
    // A stream outside the walked subset: the header says three blocks.
    let mut f = bytes(CORE);
    f[4] = (f[4] & 0xCF) | 0x20;
    let i = info(&f);
    assert_eq!(i.blocks, 3);
    let emdf = metadata(5, 1);
    assert_eq!(carriage(&f, &i, 2, emdf.len()), Carriage::Aux);
    let (out, skip) = carry(&f, &i, &atmos_addbsi(6), &emdf);
    assert!(!skip);
    let i2 = info(&out);
    assert_eq!(signals(&out, &i2), Signals { flag: true, aux: true, oamd: true, joc: true });
    assert_eq!(
        check_frame(&out, &i2, 6, 5, &tables()),
        FrameCheck { flag: true, oamd: true, joc: true }
    );
    assert!(aux_matches(&out, &emdf));
    assert_eq!(check_aux_oamd(&out, 6), Some(true));
    assert_eq!(check_aux_oamd(&out, 7), Some(false));
}

#[test]
fn carriage_at_44100_hz() {
    let mut f = bytes(CORE);
    f[4] |= 0x40;
    let i = info(&f);
    assert_eq!((i.sample_rate, i.blocks), (44100, 6));
    let emdf = metadata(5, 1);
    assert_eq!(carriage(&f, &i, 2, emdf.len()), Carriage::Aux);
    let (out, skip) = carry(&f, &i, &atmos_addbsi(6), &emdf);
    assert!(!skip);
    assert!(aux_matches(&out, &emdf));
    assert!(matches!(check_walk(&f, &i), WalkCheck::Unsupported));
}

#[test]
fn carriage_impossible() {
    let f = bytes(CORE);
    let i = info(&f);
    assert_eq!(carriage(&f, &i, 2, 512), Carriage::Impossible);
    assert_eq!(carriage(&f, &i, 0, 10), Carriage::Impossible);
    assert_eq!(carriage(&f, &FrameInfo { bsid: 8, ..i }, 2, 10), Carriage::Impossible);
    let (out, _) = carry(&f, &i, &[1, 14], &metadata(13, 0));
    assert_eq!(carriage(&out, &info(&out), 2, 10), Carriage::Impossible);
    assert_eq!(carriage(&vec![0; 4090], &i, 2, 10), Carriage::Impossible);
}

#[test]
fn aux_oamd_checks() {
    let f = bytes(CORE);
    let emdf = encode_frame_emdf(&objects(13), true, &PublicCrcProtector);
    let out = inject_aux(&f, &emdf, 8 * emdf.len());
    assert_eq!(check_aux_oamd(&out, 14), Some(true));
    // Without the bed the count is another, and so is the number of beds.
    let bare = encode_frame_emdf(&objects(14), false, &PublicCrcProtector);
    let out = inject_aux(&f, &bare, 8 * bare.len());
    assert_eq!(check_aux_oamd(&out, 14), Some(false));
    assert_eq!(check_aux_oamd(&f, 14), None);
    let out = inject_aux(&f, b"MARKER", 48);
    assert_eq!(check_aux_oamd(&out, 14), None);
    assert!(aux_matches(&out, b"MARKER"));
    assert!(!aux_matches(&out, b"MARKES"));
    assert!(!aux_matches(&out, b"MARKERS"));
    assert!(!aux_matches(&f, b"MARKER"));
}

#[test]
fn probe_reports_a_bad_joc() {
    let f = bytes(CORE);
    let emdf = wrap_emdf(&[(PAYLOAD_JOC, vec![0xA0, 0x00])], &PublicCrcProtector);
    let (out, _) = carry(&f, &info(&f), &[1, 14], &emdf);
    let p = probe_joc(&out, &tables()).unwrap();
    let (joc, n) = p.joc.unwrap();
    assert_eq!(n, 2);
    assert_eq!(joc.unwrap_err(), JocError::DmxConfig(5));
    let none = wrap_emdf(&[(PAYLOAD_OAMD, vec![0x00])], &PublicCrcProtector);
    let (out, _) = carry(&f, &info(&f), &[1, 14], &none);
    assert!(probe_joc(&out, &tables()).unwrap().joc.is_none());
}

#[test]
fn counters_wrap_at_1024() {
    assert!(seq_monotonic(&vec![1022, 1023, 0, 1]));
    assert!(!seq_monotonic(&vec![1023, 1024]));
    assert!(!seq_monotonic(&vec![5, 5]));
    assert!(seq_monotonic(&vec![9]));
    assert!(seq_monotonic(&vec![]));
}

#[test]
fn core_keeps_its_size_under_a_graft() {
    let f = bytes(CORE);
    let i = info(&f);
    let (core, _) = carry(&f, &i, &atmos_addbsi(14), &metadata(13, 7));
    let small = metadata(5, 9);
    let (mine, _) = carry(&f, &i, &atmos_addbsi(6), &small);
    let ci = info(&core);
    let out = graft_core_frame(&core, &ci, &mine, Some(6)).unwrap();
    assert_eq!(out.len(), core.len());
    assert_eq!(crc16(&out[2..]), 0);
    assert_eq!(read_addbsi(&out, &ci), Some((true, 6)));
    assert_eq!(
        check_frame(&out, &ci, 6, 5, &tables()),
        FrameCheck { flag: true, oamd: true, joc: true }
    );
    // The other way round the container does not fit.
    assert!(graft_core_frame(&mine, &info(&mine), &core, None).is_none());
    // One of the two has no container, or the native one no JOC.
    assert!(graft_core_frame(&f, &i, &mine, None).is_none());
    assert!(graft_core_frame(&core, &ci, &f, None).is_none());
    let plain = encode_frame_emdf(&objects(20), true, &PublicCrcProtector);
    let (core, _) = carry(&f, &i, &atmos_addbsi(14), &plain);
    assert!(graft_core_frame(&core, &info(&core), &mine, None).is_none());
}

#[test]
fn reference_gives_its_metadata() {
    let f = bytes(CORE);
    let i = info(&f);
    let emdf = metadata(5, 9);
    let (out, _) = carry(&f, &i, &[1, 14, 77], &emdf);
    assert_eq!(reference_metadata(&out, &info(&out)), Some((emdf, vec![1, 14, 77])));
    assert_eq!(reference_metadata(&f, &i), None);
    let large = wrap_emdf(&[(PAYLOAD_JOC, vec![0; 470])], &PublicCrcProtector);
    let (out, _) = carry(&f, &i, &[1, 14], &large);
    assert_eq!(reference_metadata(&out, &info(&out)), None);
    let plain = encode_frame_emdf(&objects(5), true, &PublicCrcProtector);
    let (out, _) = carry(&f, &i, &[1, 14], &plain);
    assert_eq!(reference_metadata(&out, &info(&out)), None);
}

#[test]
fn walk_ends_in_front_of_the_tail() {
    let f = bytes(CORE);
    let i = info(&f);
    match check_walk(&f, &i) {
        WalkCheck::Walked { points, end, diff } => {
            assert_eq!(points, vec![780, 1388, 2117, 3010, 3705, 4344]);
            assert_eq!((end, diff), (4860, 640 * 8 - 18 - 4860));
        }
        WalkCheck::Unsupported => panic!("walk expected"),
    }
    assert!(matches!(check_walk(&f, &FrameInfo { acmod: 2, ..i }), WalkCheck::Unsupported));
    assert!(matches!(check_walk(&f, &FrameInfo { bsid: 8, ..i }), WalkCheck::Unsupported));
}

#[test]
fn substreams_are_counted() {
    let base = info(&bytes(CORE));
    let f = |strmtyp: u8, substreamid: u8, size: usize| FrameInfo { strmtyp, substreamid, size, ..base };
    let frames = vec![f(1, 0, 10), f(0, 0, 20), f(0, 1, 30), f(0, 0, 40)];
    assert_eq!(count_substreams(&frames), vec![(0, 2), (1, 1), (256, 1)]);
    assert_eq!(count_independent(&frames), 3);
    assert_eq!(total_bytes(&frames), 100);
}
