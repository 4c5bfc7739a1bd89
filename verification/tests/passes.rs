use damf2joc::atmos::atmos_addbsi;
use damf2joc::bsi::read_addbsi;
use damf2joc::eac3::{crc16, parse_frames, FrameInfo};
use damf2joc::eac3_audblk::skip_points;
use damf2joc::emdf::{encode_frame_emdf, extract_emdf_payloads, wrap_emdf, PAYLOAD_JOC};
use damf2joc::inject::read_aux;
use damf2joc::joc::{decode_joc, find_emdf_anywhere, fine_mtx_encoder, JocError, JocTables};
use damf2joc::oamd::ObjectCode;
use damf2joc::passes::{
    aux_totals, carry_stream, check_totals, first_containers, first_overfull, first_reference,
    first_uncarried, first_unmarked, frames_fit,
    graft_core_stream, inject_payloads, joc_totals, metadata_items, references, signal_totals,
    walk_totals, CheckTotals, SignalTotals, WalkTotals,
};
use damf2joc::protect::PublicCrcProtector;

/// A 5.1 frame whose blocks after the first reuse everything.
const QUIET: &[&str] = &[
    "0b77007f3f87c0000000000040a5cd6800000000000746953716dd534cae92a874e1ab7b4d55d895",
    "df2ab92c256fadab7d768c24d61d3f52fa252bafec357af9d6cf9358af6eedd56921a63f61320b8f",
    "e12bb891fc28632a4cfa257af5ee20af61eb9af129b8b10d5d27b120eafeb2186e5fc388e6edcb14",
    "e13eb74aeba4ae2ea1833be7c0000000000000000000000000000000000000000000000000000000",
    "00000000000000000000000000000000000000000000000000000000000000000000000000000000",
    "00000000000000000000000000000000000000000000000000000000000000000000000000000000",
    "00000000000000000000000000004468",
];

/// A 5.1 frame whose blocks end exactly at its tail.
const EXACT: &[&str] = &[
    "0b7700653f87c0000000400041e97d5216800000000481f5855762564d12c3e4afec58b95ec1254d",
    "61b5aa243af76ed7b94922986a9f294af4f9f7cfd5a5414a12b6e24348aaedc7d115247caa942751",
    "1fc2755a91f7a15d88feddbbae9d2a7ca52a9bb110254cea23f48861c4ad5437f76c3fb14e8bf848",
    "21c3ad113437f0e6da57c3e7c41d9bdecde3d45d679e0cc65c5edc659f3f050846993c476ecf70a9",
    "3a0004b684708e73febff780186481f93a612800b200949d57889ab29bdf58499f062067304e3770",
    "20a85d76",
];

fn bytes(lines: &[&str]) -> Vec<u8> {
    let text: String = lines.concat();
    (0..text.len() / 2).map(|i| u8::from_str_radix(&text[2 * i..2 * i + 2], 16).unwrap()).collect()
}

/// A decode tree for `n` symbols: symbol 0 has the code 0, the others hang below the root's other
/// branch in a balanced tree.
fn tree(n: usize) -> Vec<[i32; 2]> {
    fn grow(t: &mut Vec<[i32; 2]>, lo: i32, hi: i32) -> i32 {
        if hi - lo == 1 {
            return -lo - 1;
        }
        let node = t.len();
        t.push([0, 0]);
        let mid = (lo + hi) / 2;
        let a = grow(t, lo, mid);
        let b = grow(t, mid, hi);
        t[node] = [a, b];
        node as i32
    }
    let mut t = vec![[0, 0]];
    let rest = grow(&mut t, 1, n as i32);
    t[0] = [-1, rest];
    t
}

fn tables() -> JocTables {
    JocTables {
        num_bands: [1, 3, 5, 7, 9, 12, 15, 23],
        fine_generic: tree(192),
        coarse_generic: tree(96),
        fine_coeff_sparse: tree(192),
        coarse_coeff_sparse: tree(96),
        pos_index_5ch: tree(5),
        pos_index_7ch: tree(7),
    }
}

fn objects(n: u32) -> Vec<ObjectCode> {
    (0..n).map(|i| ObjectCode { px: i % 63, py: 62 - i % 63, pz: i % 16 }).collect()
}

fn codes(n: i32) -> Vec<[i32; 5]> {
    (0..n).map(|i| [96 + i, 96, 95, 0, 191]).collect()
}

/// Three frames with junk between the first two.
fn source() -> (Vec<u8>, Vec<FrameInfo>) {
    let f = bytes(QUIET);
    let mut d = f.clone();
    d.extend_from_slice(&[1, 2, 3]);
    d.extend_from_slice(&f);
    d.extend_from_slice(&f);
    let frames = parse_frames(&d);
    assert_eq!(frames.len(), 3);
    (d, frames)
}

fn items(n: u32) -> Vec<(Vec<u8>, Vec<u8>)> {
    metadata_items(
        &vec![objects(n), objects(n), objects(n)],
        &vec![codes(n as i32), codes(n as i32), codes(n as i32)],
        &fine_mtx_encoder(&tables()),
        &PublicCrcProtector,
    )
}

#[test]
fn items_count_the_frames() {
    let t = tables();
    for (i, (emdf, addbsi)) in items(5).iter().enumerate() {
        let ps = extract_emdf_payloads(emdf).unwrap();
        assert_eq!(decode_joc(&ps[1].1, &t).unwrap().seq, i as u16);
        assert_eq!(addbsi, &atmos_addbsi(6));
    }
}

#[test]
fn frames_inside() {
    let (d, frames) = source();
    assert!(frames_fit(&frames, d.len()));
    assert!(!frames_fit(&frames, d.len() - 1));
    assert!(frames_fit(&vec![], 0));
}

#[test]
fn atmos_stream_checks() {
    let (d, frames) = source();
    let items = items(5);
    assert_eq!(first_uncarried(&d, &frames, &items), None);
    let (out, skip) = carry_stream(&d, &frames, &items);
    assert_eq!(skip, 3);
    let made = parse_frames(&out);
    assert_eq!(made.len(), 3);
    assert_eq!(made.iter().map(|f| f.size).sum::<usize>(), out.len());
    for f in &made {
        let frame = &out[f.offset..f.offset + f.size];
        assert_eq!(crc16(&frame[2..]), 0);
        assert_eq!(read_addbsi(frame, f), Some((true, 6)));
    }
    assert_eq!(
        check_totals(&out, &made, 6, 5, &tables()),
        CheckTotals { flag: 3, oamd: 3, joc: 3 }
    );
    assert_eq!(
        check_totals(&out, &made, 6, 4, &tables()),
        CheckTotals { flag: 3, oamd: 3, joc: 0 }
    );
    assert_eq!(
        signal_totals(&out, &made),
        SignalTotals { flag: 3, aux: 0, oamd: 0, joc: 0 }
    );
    let j = joc_totals(&out, &made, &tables());
    assert_eq!((j.emdf, j.seqs, j.errors.len()), (3, vec![0, 1, 2], 0));
    let j = joc_totals(&d, &frames, &tables());
    assert_eq!((j.emdf, j.seqs.len(), j.errors.len()), (0, 0, 0));
}

#[test]
fn seventeen_objects_are_not_announced() {
    // The complexity index stops at 16, so a count of 17 does not read back.
    let (d, frames) = source();
    let items = items(16);
    let (out, _) = carry_stream(&d, &frames, &items);
    let made = parse_frames(&out);
    assert_eq!(
        check_totals(&out, &made, 17, 16, &tables()),
        CheckTotals { flag: 0, oamd: 3, joc: 3 }
    );
}

#[test]
fn items_in_turn() {
    let (d, frames) = source();
    let two = vec![(vec![0x11; 9], vec![1, 3]), (vec![0x22; 400], vec![1, 4])];
    let (out, _) = carry_stream(&d, &frames, &two);
    let made = parse_frames(&out);
    let flags: Vec<_> =
        made.iter().map(|f| read_addbsi(&out[f.offset..f.offset + f.size], f).unwrap().1).collect();
    assert_eq!(flags, vec![3, 4, 3]);
    // An item that no frame can carry.
    let bad = vec![(vec![0x11; 9], vec![1, 3]), (vec![0x22; 512], vec![1, 4])];
    assert_eq!(first_uncarried(&d, &frames, &bad), Some(1));
    let long = vec![(vec![0x11; 9], vec![1; 5000])];
    assert_eq!(first_uncarried(&d, &frames, &long), Some(0));
}

#[test]
fn payloads_are_marked() {
    let (d, frames) = source();
    let marker = vec![vec![0xDE, 0xAD, 0xBE, 0xEF]];
    assert_eq!(first_overfull(&frames, &marker), None);
    let out = inject_payloads(&d, &marker);
    let made = parse_frames(&out);
    assert_eq!(made.len(), 3);
    // The junk stays.
    assert_eq!(&out[made[0].size..made[0].size + 3], &[1, 2, 3]);
    assert_eq!(first_unmarked(&out, &made, &marker[0]), None);
    assert_eq!(first_unmarked(&out, &made, &[0xDE, 0xAD]), Some(0));
    assert_eq!(first_unmarked(&d, &frames, &marker[0]), Some(0));
    // Payloads in turn; an empty one leaves its frame alone.
    let turn = vec![vec![7], vec![]];
    let out = inject_payloads(&d, &turn);
    let made = parse_frames(&out);
    let aux: Vec<_> = made.iter().map(|f| read_aux(&out[f.offset..f.offset + f.size])).collect();
    assert_eq!(aux, vec![Some((vec![7], 8)), None, Some((vec![7], 8))]);
    assert_eq!(made[1].size, 256);
}

#[test]
fn room_for_payloads() {
    let (_, frames) = source();
    // 256 * 8 - 18 + 32 + 8 n <= 4096 * 8 holds up to n = 3838.
    assert_eq!(first_overfull(&frames, &vec![vec![0; 3838]]), None);
    assert_eq!(first_overfull(&frames, &vec![vec![0; 1], vec![0; 3839]]), Some(1));
    let tiny = vec![FrameInfo { size: 4, ..frames[0] }];
    assert_eq!(first_overfull(&tiny, &vec![vec![1]]), Some(0));
    assert_eq!(first_overfull(&tiny, &vec![vec![]]), None);
}

#[test]
fn oamd_stream_checks() {
    let (d, frames) = source();
    let payloads: Vec<Vec<u8>> =
        (0..3).map(|_| encode_frame_emdf(&objects(7), true, &PublicCrcProtector)).collect();
    let out = inject_payloads(&d, &payloads);
    let made = parse_frames(&out);
    assert_eq!(aux_totals(&out, &made, 8), (3, 3));
    assert_eq!(aux_totals(&out, &made, 9), (3, 0));
    assert_eq!(aux_totals(&d, &frames, 8), (0, 0));
    assert_eq!(
        signal_totals(&out, &made),
        SignalTotals { flag: 0, aux: 3, oamd: 3, joc: 0 }
    );
}

#[test]
fn walks_are_counted() {
    let mut d = bytes(QUIET);
    d.extend_from_slice(&bytes(EXACT));
    d.extend_from_slice(&bytes(QUIET));
    let mut frames = parse_frames(&d);
    assert_eq!(walk_totals(&d, &frames), WalkTotals { ok: 1, mismatch: 2, unsupported: 0 });
    frames[2].acmod = 2;
    assert_eq!(walk_totals(&d, &frames), WalkTotals { ok: 1, mismatch: 1, unsupported: 1 });
    let f = bytes(EXACT);
    assert_eq!(
        skip_points(&f, &parse_frames(&f)[0], 54),
        Some((vec![1060, 1138, 1216, 1294, 1372, 1504], 204 * 8 - 18))
    );
}

#[test]
fn streams_are_grafted() {
    let (d, frames) = source();
    let (core, _) = carry_stream(&d, &frames, &items(9));
    let cf = parse_frames(&core);
    let (mine, _) = carry_stream(&d, &frames[..2].to_vec(), &items(5));
    let mf = parse_frames(&mine);
    let (out, n) = graft_core_stream(&core, &cf, &mine, &mf, Some(6));
    assert_eq!(n, 2);
    assert_eq!(out.len(), core.len());
    let of = parse_frames(&out);
    assert_eq!(of, cf);
    assert_eq!(
        check_totals(&out, &of, 6, 5, &tables()),
        CheckTotals { flag: 2, oamd: 2, joc: 2 }
    );
    // The new container stands where the native one stood, with zeros behind it.
    let (at, native) = find_emdf_anywhere(&core[..cf[0].size]).unwrap();
    let n = 4 + 256 * native[2] as usize + native[3] as usize;
    let (at2, now) = find_emdf_anywhere(&out[..of[0].size]).unwrap();
    let mut want = items(5)[0].0.clone();
    want.resize(n, 0);
    assert_eq!((at2, &now[..n]), (at, &want[..]));
    // The third frame has no partner and stays as it is.
    assert_eq!(&out[of[2].offset..], &core[cf[2].offset..]);
}

#[test]
fn references_are_collected() {
    let (d, frames) = source();
    let given = items(5);
    let (r, _) = carry_stream(&d, &frames, &given);
    let rf = parse_frames(&r);
    let refs = references(&r, &rf);
    assert_eq!(refs, given);
    let (out, skip) = carry_stream(&d, &frames, &refs);
    assert_eq!((out == r, skip), (true, 3));
    assert!(references(&d, &frames).is_empty());
    assert_eq!(first_reference(&r, &rf), Some(given[0].clone()));
    assert_eq!(first_reference(&r, &rf[1..].to_vec()), Some(given[1].clone()));
    assert_eq!(first_reference(&d, &frames), None);
}

#[test]
fn containers_are_found_in_order() {
    let f = bytes(QUIET);
    let (with, _) = carry_stream(&f, &parse_frames(&f), &items(5));
    let mut d = f.clone();
    for _ in 0..4 {
        d.extend_from_slice(&with);
        d.extend_from_slice(&f);
    }
    let frames = parse_frames(&d);
    assert_eq!(first_containers(&d, &frames, 3), vec![1, 3, 5]);
    assert_eq!(first_containers(&d, &frames, 9), vec![1, 3, 5, 7]);
    assert!(first_containers(&d, &frames, 0).is_empty());
    assert!(first_containers(&f, &parse_frames(&f), 3).is_empty());
}

#[test]
fn first_five_errors() {
    let f = bytes(QUIET);
    let mut d = Vec::new();
    for _ in 0..7 {
        d.extend_from_slice(&f);
    }
    let frames = parse_frames(&d);
    let bad = wrap_emdf(&[(PAYLOAD_JOC, vec![0xE0, 0x00])], &PublicCrcProtector);
    let (out, _) = carry_stream(&d, &frames, &vec![(bad, vec![1, 2])]);
    let j = joc_totals(&out, &parse_frames(&out), &tables());
    assert_eq!((j.emdf, j.seqs.len()), (7, 0));
    let want: Vec<(usize, JocError)> = (0..5).map(|i| (i, JocError::DmxConfig(7))).collect();
    assert_eq!(j.errors, want);
}
