use damf2joc::bsi::{
    audfrm_start_bit, bsi_addbsie_pos, bsi_dump, bsi_infomdate_pos, read_addbsi, read_addbsi_raw,
};
use damf2joc::eac3::{crc16, parse_frames, FrameInfo};
use damf2joc::eac3_audblk::{allocate, count_mantissa, skip_points, skipfld_enable_bit, GroupPos};
use damf2joc::inject::{
    inject_aux, inject_frame_full, inject_frame_skipfield, read_aux, splice_emdf_into_core,
};
use damf2joc::joc::find_emdf_anywhere;

/// A 5.1 frame with grouped exponents, bit allocation side information and mantissas in each block.
const CORE: &[&str] = &[
    "0b77013f3f87c01a10008db26852e6b410b134f069bf953a6f25020010218054a9b8b6ea9a657495",
    "43a70d5bda6aaec4aef955cb192b7d6d5bebb46126b0e9fa911fdb895ee587af9d577372e676eedd",
    "56921a609552a311f584375ca5b09947d5cdbb52f5fab25439ec00f9b6b933c691b7b31ee6c16535",
    "f7ad561a7b60ab8fa76fde8042b78a64e580891b3b0657c7a192a621b4d4158c50f49d76a3b5f440",
    "ceb388686c3daf09f574af6158831104fbf58e7ef7fbff052ae0bed94ce46b91d81a985ca0f47269",
    "ea30510229ac0e5436496bbe99b1c03c8c474b1041ac6119fc44bc3d87e90eff326d5b0e194b94b0",
    "0601016943850eb42869c37b75fd384ea126ac95fccf9f29fea006e36230c9c0c5873a3fc8daa477",
    "48e9099520e077ec4401c16d43520f4cbcf009ea4850b6929387a49132173b050f8d8e7eeb48c0f3",
    "ec5e912187a802e4dcee5f19ef2c6c72c035336d84b6104086511fc37b5e957ac9625c4d08254ea1",
    "dcaf11ebf410d0c4bb2bd42a9ea1af623da2f659888fd3be798b5927fe74da6c0ca1d4e7efc03f78",
    "38026bd68c5bb09c0eaecb0e7d0b981ce9fcadc343a3eab09e6150620d7065bebff5069721bed2c4",
    "f4d574ccee802e85d806d11f26af121d787612bebb49f83b6d29524b7efe2b684450f26a1cb2f698",
    "a31f0288daa13b3b01bbebf8d94b9ad01f35b85f94943720cd3ece7687c3747266c6b87f7ad62e90",
    "3f2f9fe5a7cac76d408070aeaa4d72c5c0dcbfb15d526c1187b317c88167bac5789629d9fc15b600",
    "0b9a676ad4910964032046fa8a541399a3c112d2ba1f43bb1e198e2e6c5eee597120e38f5140e0b4",
    "d36bcd0afd65cb10000000000000000000000000000000000000000000000000000000000000a9be",
];

/// A 5.1 frame whose blocks after the first reuse everything.
const QUIET: &[&str] = &[
    "0b77007f3f87c0000000000040a5cd6800000000000746953716dd534cae92a874e1ab7b4d55d895",
    "df2ab92c256fadab7d768c24d61d3f52fa252bafec357af9d6cf9358af6eedd56921a63f61320b8f",
    "e12bb891fc28632a4cfa257af5ee20af61eb9af129b8b10d5d27b120eafeb2186e5fc388e6edcb14",
    "e13eb74aeba4ae2ea1833be7c0000000000000000000000000000000000000000000000000000000",
    "00000000000000000000000000000000000000000000000000000000000000000000000000000000",
    "00000000000000000000000000000000000000000000000000000000000000000000000000000000",
    "00000000000000000000000000004468",
];

fn bytes(lines: &[&str]) -> Vec<u8> {
    let text: String = lines.concat();
    (0..text.len() / 2).map(|i| u8::from_str_radix(&text[2 * i..2 * i + 2], 16).unwrap()).collect()
}

fn bits(b: &[u8]) -> String {
    b.iter().map(|x| format!("{x:08b}")).collect()
}

fn info(frame: &[u8]) -> FrameInfo {
    parse_frames(frame)[0]
}

/// A container of `n` payload bytes, all zero.
fn container(n: usize) -> Vec<u8> {
    let mut v = vec![0x58, 0x38, (n / 256) as u8, (n % 256) as u8];
    v.extend(vec![0u8; n]);
    v
}

#[test]
fn skip_points_of_a_full_frame() {
    let f = bytes(CORE);
    let i = info(&f);
    assert_eq!((f.len(), i.size, i.full_channels(), i.samples()), (640, 640, 5, 1536));
    assert_eq!(audfrm_start_bit(&f, &i), Some(54));
    assert_eq!(skipfld_enable_bit(&f, &i, 54), Some(64));
    assert_eq!(skip_points(&f, &i, 54), Some((vec![780, 1388, 2117, 3010, 3705, 4344], 4860)));
}

#[test]
fn skip_points_of_a_frame_that_reuses() {
    let f = bytes(QUIET);
    assert_eq!(
        skip_points(&f, &info(&f), 54),
        Some((vec![1060, 1063, 1066, 1069, 1072, 1075], 1075))
    );
}

#[test]
fn skip_points_outside_the_subset() {
    let f = bytes(CORE);
    let i = info(&f);
    assert_eq!(skip_points(&f, &FrameInfo { blocks: 3, ..i }, 54), None);
    assert_eq!(skip_points(&f, &FrameInfo { acmod: 2, ..i }, 54), None);
    assert_eq!(skip_points(&f, &FrameInfo { lfe: false, ..i }, 54), None);
    // Only 48 kHz is walked.
    for fscod in 1..4 {
        assert_eq!(skip_points(&f, &FrameInfo { fscod, ..i }, 54), None);
        assert!(inject_frame_skipfield(&f, &FrameInfo { fscod, ..i }, &[1, 14], &container(5), 2).is_none());
    }
    // The walk one bit off meets coding tools that it does not follow.
    assert_eq!(skip_points(&f, &i, 53), None);
    assert_eq!(skipfld_enable_bit(&f, &FrameInfo { blocks: 3, ..i }, 54), None);
}

#[test]
fn header_positions() {
    let f = bytes(CORE);
    let i = info(&f);
    assert_eq!(bsi_infomdate_pos(&f, &i), Some((52, false)));
    assert_eq!(bsi_addbsie_pos(&f, &i), Some((53, false)));
    assert_eq!(read_addbsi(&f, &i), None);
    assert_eq!(read_addbsi_raw(&f, &i), None);
    let old = FrameInfo { bsid: 8, ..i };
    assert_eq!(bsi_infomdate_pos(&f, &old), None);
    assert_eq!(bsi_addbsie_pos(&f, &old), None);
    assert_eq!(audfrm_start_bit(&f, &old), None);
    assert!(bsi_dump(&f, &old).is_none());
}

/// A frame with the given bits from bit 45 on.
fn frame_with(acmod: u32, lfe: u32, bsi: &str) -> Vec<u8> {
    let mut t = "0000101101110111".to_string() + "00000" + "00000011111" + "0011";
    t += &format!("{acmod:03b}{lfe}10000");
    t += &bsi.replace(' ', "");
    let mut v = Vec::new();
    while t.len() < 64 * 8 {
        t.push('0');
    }
    for k in 0..64 {
        v.push(u8::from_str_radix(&t[8 * k..8 * k + 8], 2).unwrap());
    }
    v
}

#[test]
fn header_with_everything() {
    // dialnorm 7, compre, mixing metadata with every optional part and mixdef 3, informational
    // metadata, additional information of three bytes.
    let bsi = "00111 1 11111111".to_string()
        + "1 00 000000 000000 1 00000 1 000000 1 000000 11 00001"
        + &"0".repeat(24)
        + "1 1 11111 0 1 11111 0 0 0"
        + "1 101 00 10 1 11111111 0"
        + "1 000010 00000001 00001100 10101010";
    let f = frame_with(7, 1, &bsi);
    let i = info(&f);
    let flat = bsi.replace(' ', "");
    let end = 45 + flat.len();
    assert_eq!(audfrm_start_bit(&f, &i), Some(end));
    assert_eq!(bsi_addbsie_pos(&f, &i), Some((end - 31, true)));
    assert_eq!(bsi_infomdate_pos(&f, &i), Some((end - 31 - 18, true)));
    assert_eq!(read_addbsi(&f, &i), Some((true, 12)));
    assert_eq!(read_addbsi_raw(&f, &i), Some((3, vec![1, 12, 0xAA])));
    let d = bsi_dump(&f, &i).unwrap();
    assert_eq!((d.dialnorm, d.compre, d.mixmdate), (7, true, true));
    let m = d.mix.unwrap();
    assert_eq!((m.pgmscle, m.extpgmscle, m.mixdef, m.frmmixcfginfoe), (true, true, 3, true));
    let n = d.info.unwrap();
    assert_eq!((n.bsmod, n.dsurexmod, n.audprodie), (5, Some(2), true));
    assert_eq!(d.addbsi, Some(vec![1, 12, 0xAA]));
    assert!(!d.skipflde && !d.auxdatae);
}

#[test]
fn header_of_two_mono_channels() {
    // dialnorm and compression of both channels, mixing metadata with panning, both production fields.
    let bsi = "00111 1 11111111 00001 1 00000000".to_string()
        + "1 1 000000 1 000000 0 01 00000 1 00000000000000 1 00000000000000 0"
        + "1 000 00 1 00000000 1 00000000 1"
        + "0";
    let f = frame_with(0, 0, &bsi);
    let i = info(&f);
    let end = 45 + bsi.replace(' ', "").len();
    assert_eq!(bsi_addbsie_pos(&f, &i), Some((end - 1, false)));
    assert_eq!(audfrm_start_bit(&f, &i), Some(end));
}

#[test]
fn short_additional_information_is_no_flag() {
    let f = frame_with(7, 1, "00000 0 0 0 1 000000 00000001");
    let i = info(&f);
    assert_eq!(read_addbsi(&f, &i), None);
    assert_eq!(read_addbsi_raw(&f, &i), Some((1, vec![1])));
}

#[test]
fn aux_frame_bits() {
    let f = bytes(QUIET);
    let payload = [0xA5u8, 0xC0];
    let out = inject_aux(&f, &payload, 11);
    // 2048 - 18 + 11 + 32 = 2073 bits in 260 bytes.
    assert_eq!(out.len(), 260);
    let (b, s) = (bits(&out), bits(&f));
    assert_eq!(&b[..21], &s[..21]);
    assert_eq!(&b[21..32], "00010000001");
    assert_eq!(&b[32..2030], &s[32..2030]);
    assert_eq!(&b[2030..2037], "0000000");
    assert_eq!(&b[2037..2048], "10100101110");
    assert_eq!(&b[2048..2062], "00000000001011");
    assert_eq!(&b[2062..2064], "10");
    assert_eq!(crc16(&out[2..]), 0);
    assert_eq!(read_aux(&out), Some((vec![0xA5, 0xC0], 11)));
    assert_eq!(read_aux(&f), None);
    assert_eq!(read_aux(&[0xFF; 3]), None);
    // A length that goes over the front of the frame.
    assert_eq!(read_aux(&[0xFF; 6]), None);
}

#[test]
fn full_frame_bits() {
    let f = bytes(CORE);
    let i = info(&f);
    let aux = container(3);
    let out = inject_frame_full(&f, &i, &[1, 14], &aux, 56);
    let (b, s) = (bits(&out), bits(&f));
    // 5120 + 16 + 56 + 20 = 5212 bits in 652 bytes.
    assert_eq!(out.len(), 652);
    let head = s[..21].to_string() + "00101000101" + &s[32..53];
    let want = head + "1" + "000001" + "0000000100001110" + &s[54..5102] + "0000" + &bits(&aux)
        + "00000000111000" + "10";
    assert_eq!(&b[..5200], want);
    assert_eq!(crc16(&out[2..]), 0);
    let i2 = info(&out);
    assert_eq!(i2.size, 652);
    assert_eq!(read_addbsi(&out, &i2), Some((true, 14)));
    assert_eq!(read_aux(&out), Some((aux, 56)));
}

#[test]
fn full_frame_without_aux() {
    let f = bytes(CORE);
    let i = info(&f);
    let out = inject_frame_full(&f, &i, &[1, 14, 9], &[], 0);
    let i2 = info(&out);
    assert_eq!(read_addbsi_raw(&out, &i2), Some((3, vec![1, 14, 9])));
    assert_eq!(audfrm_start_bit(&out, &i2), Some(54 + 6 + 24));
    assert_eq!(read_aux(&out), None);
    assert_eq!(crc16(&out[2..]), 0);
}

#[test]
fn skip_frame_bits() {
    let f = bytes(CORE);
    let i = info(&f);
    let emdf = container(5);
    let out = inject_frame_skipfield(&f, &i, &[1, 14], &emdf, 2).unwrap();
    let (b, s) = (bits(&out), bits(&f));
    // 5102 + 9 + 22 + 15 + 72 + 18 = 5238 bits in 656 bytes.
    assert_eq!(out.len(), 656);
    let mut want = s[..21].to_string() + "00101000111" + &s[32..52];
    want += "1000000000"; // informational metadata, all zero
    want += "1";
    want += "000001";
    want += "0000000100001110";
    want += &s[54..64];
    want += "1";
    want += &s[65..780];
    want += "0";
    want += &s[780..1388];
    want += "0";
    want += &s[1388..2117];
    want += "1000001001";
    want += &bits(&emdf);
    want += &s[2117..3010];
    want += "0";
    want += &s[3010..3705];
    want += "0";
    want += &s[3705..4344];
    want += "0";
    want += &s[4344..5102];
    want += &"0".repeat(10);
    want += "00";
    assert_eq!(&b[..5232], want);
    assert_eq!(crc16(&out[2..]), 0);
    let i2 = info(&out);
    assert_eq!(read_addbsi(&out, &i2), Some((true, 14)));
    assert_eq!(bsi_infomdate_pos(&out, &i2), Some((52, true)));
    assert_eq!(read_aux(&out), None);
    assert!(bsi_dump(&out, &i2).unwrap().skipflde);
    let (at, rest) = find_emdf_anywhere(&out).unwrap();
    assert_eq!(at, 2117 + 9 + 22 + 2 + 10);
    assert_eq!(&rest[..9], &emdf[..]);
}

#[test]
fn skip_field_refused() {
    let f = bytes(CORE);
    let i = info(&f);
    let emdf = container(5);
    assert!(inject_frame_skipfield(&f, &FrameInfo { bsid: 8, ..i }, &[1, 14], &emdf, 2).is_none());
    assert!(inject_frame_skipfield(&f, &FrameInfo { blocks: 3, ..i }, &[1, 14], &emdf, 2).is_none());
    assert!(inject_frame_skipfield(&f, &i, &[1, 14], &emdf, 6).is_none());
    // Additional information is there already.
    let out = inject_frame_skipfield(&f, &i, &[1, 14], &emdf, 0).unwrap();
    assert!(inject_frame_skipfield(&out, &info(&out), &[1, 14], &emdf, 2).is_none());
    // More than a frame holds.
    let mut long = f.clone();
    long.extend(vec![0u8; 4096 - 640]);
    assert!(inject_frame_skipfield(&long, &i, &[1, 14], &emdf, 2).is_none());
}

#[test]
fn splice_replaces_in_place() {
    let f = bytes(CORE);
    let native = container(9);
    let core = inject_frame_skipfield(&f, &info(&f), &[1, 14], &native, 1).unwrap();
    let i = info(&core);
    let (at, _) = find_emdf_anywhere(&core).unwrap();
    let mine = [0x58u8, 0x38, 0, 2, 0xAB, 0xCD];
    let out = splice_emdf_into_core(&core, &i, at, 13, &mine, Some(9)).unwrap();
    assert_eq!(out.len(), core.len());
    assert_eq!(read_addbsi(&out, &i), Some((true, 9)));
    let (b, s) = (bits(&out), bits(&core));
    let p = bsi_addbsie_pos(&core, &i).unwrap().0 + 7;
    assert_eq!(&b[..p + 8], &s[..p + 8]);
    assert_eq!(&b[p + 16..at], &s[p + 16..at]);
    assert_eq!(&b[at..at + 104], bits(&mine) + &"0".repeat(56));
    let end = 8 * core.len() - 16;
    assert_eq!(&b[at + 104..end], &s[at + 104..end]);
    assert_eq!(crc16(&out[2..]), 0);
    // Without a new index the old one stays.
    let kept = splice_emdf_into_core(&core, &i, at, 13, &mine, None).unwrap();
    assert_eq!(read_addbsi(&kept, &i), Some((true, 14)));
}

#[test]
fn splice_refused() {
    let f = bytes(CORE);
    let core = inject_frame_skipfield(&f, &info(&f), &[1, 14], &container(9), 1).unwrap();
    let i = info(&core);
    let (at, _) = find_emdf_anywhere(&core).unwrap();
    // Too large, over the end, in front of the additional information, or without any.
    assert!(splice_emdf_into_core(&core, &i, at, 13, &[0; 14], None).is_none());
    assert!(splice_emdf_into_core(&core, &i, 8 * core.len() - 8, 2, &[0], None).is_none());
    assert!(splice_emdf_into_core(&core, &i, 40, 13, &[0], None).is_none());
    assert!(splice_emdf_into_core(&f, &info(&f), 2000, 13, &[0], None).is_none());
}

#[test]
fn mantissa_counts_add_up() {
    let bap: Vec<u8> = (0..255usize).map(|i| (i * i % 16) as u8).collect();
    let pos = |g: &GroupPos| (g.bap1, g.bap2, g.bap4);
    for mid in [0, 1, 100, 254, 255] {
        let mut whole = GroupPos { bap1: 2, bap2: 1, bap4: 1 };
        let all = count_mantissa(&bap, 0, 255, &mut whole);
        let mut parts = GroupPos { bap1: 2, bap2: 1, bap4: 1 };
        let first = count_mantissa(&bap, 0, mid, &mut parts);
        let second = count_mantissa(&bap, mid, 255, &mut parts);
        assert_eq!((all, pos(&whole)), (first + second, pos(&parts)));
    }
    // Three mantissas with pointer 1 make a group of five bits, two with pointer 4 one of seven.
    let mut g = GroupPos { bap1: 2, bap2: 2, bap4: 1 };
    assert_eq!(count_mantissa(&vec![1, 1, 1, 4, 5, 0, 3], 0, 7, &mut g), 5 + 7 + 4 + 3);
    assert_eq!(pos(&g), (2, 2, 0));
}

#[test]
fn allocation_takes_every_end() {
    let psd: Vec<i32> = (0..253).map(|i| 3072 - 128 * (i % 11)).collect();
    for end in 7..=253 {
        let bap = allocate(&psd, end, 0, 0);
        assert_eq!(bap.len(), 256);
        assert!(bap.iter().all(|b| *b < 16));
        assert!(bap[end..].iter().all(|b| *b == 0));
    }
    // Far below the mask nothing is coded, far above it everything is, as finely as can be.
    assert!(allocate(&psd, 100, -2000, 0).iter().all(|b| *b == 0));
    assert!(allocate(&psd, 100, 3000, 0)[..100].iter().all(|b| *b == 15));
}
