use damf2joc::joc::{
    decode_joc, encode_joc, find_emdf_anywhere, fine_mtx_encoder, HuffEnc, JocError, JocTables, ENC_BANDS,
    FINE_CENTER, FINE_RANGE,
};

const FINE_STEP: f32 = 0.1;

fn quantize_gain(g: f32) -> i32 {
    ((g / FINE_STEP).round() as i32 + FINE_CENTER).clamp(0, FINE_RANGE - 1)
}

fn dequantize_gain(q: i32) -> f32 {
    (q - FINE_CENTER) as f32 * FINE_STEP
}

/// A decode tree for `n` symbols: symbol 0 has the code 0, the others hang below the root's other
/// branch in a balanced tree.
fn tree(n: usize) -> Vec<[i32; 2]> {
    fn grow(t: &mut Vec<[i32; 2]>, lo: i32, hi: i32) -> i32 {
        if hi - lo == 1 {
            return -lo - 1;
        }
        let node = t.len();
        t.push([0, 0]);
        let mid = (lo + hi) / 2;
        let a = grow(t, lo, mid);
        let b = grow(t, mid, hi);
        t[node] = [a, b];
        node as i32
    }
    let mut t = vec![[0, 0]];
    let rest = grow(&mut t, 1, n as i32);
    t[0] = [-1, rest];
    t
}

fn tables() -> JocTables {
    JocTables {
        num_bands: [1, 3, 5, 7, 9, 12, 15, 23],
        fine_generic: tree(192),
        coarse_generic: tree(96),
        fine_coeff_sparse: tree(192),
        coarse_coeff_sparse: tree(96),
        pos_index_5ch: tree(5),
        pos_index_7ch: tree(7),
    }
}

#[test]
fn joc_roundtrip() {
    let matrices = vec![
        [1.0f32, 0.0, 0.0, 0.0, 0.0],
        [0.0, -0.5, 0.7, 0.0, 0.2],
        [0.3, 0.3, 0.0, 0.9, -9.5],
    ];
    let tables = tables();
    let enc = fine_mtx_encoder(&tables);
    let codes: Vec<[i32; 5]> = matrices.iter().map(|m| m.map(quantize_gain)).collect();
    let payload = encode_joc(&codes, 123, &enc);
    let f = decode_joc(&payload, &tables).expect("decode");
    assert_eq!(f.object_count, 3);
    assert_eq!(f.channel_count, 5);
    assert_eq!(f.seq, 123);
    assert!(payload.len() * 8 - f.bits_used < 8, "padding only");
    for (obj, want) in f.objects.iter().zip(&matrices) {
        assert!(obj.active && !obj.sparse && obj.quant == 1);
        assert_eq!(obj.bands, ENC_BANDS);
        // Reverse the band-differential coding: all bands must carry the same broadband value.
        for ch in 0..5 {
            let codes = &obj.matrix[0][ch];
            let mut q = (FINE_CENTER + codes[0]).rem_euclid(FINE_RANGE);
            for &v in &codes[1..] {
                let q2 = (q + v).rem_euclid(FINE_RANGE);
                assert_eq!(q2, q);
                q = q2;
            }
            let got = dequantize_gain(q);
            assert!((got - want[ch]).abs() <= FINE_STEP / 2.0 + 1e-6, "ch{ch}: {got} vs {}", want[ch]);
        }
    }
}

#[test]
fn encoded_bits() {
    let tables = tables();
    let enc = fine_mtx_encoder(&tables);
    let out = encode_joc(&[[96, 96, 96, 96, 96]], 1025, &enc);
    let text: String = out.iter().map(|b| format!("{b:08b}")).collect();
    // header, frame info, object info; then 60 symbols zero, one bit each.
    let mut want = "000".to_string() + "000000" + "000" + "100" + "00000" + "0000000001" + "1" + "101" + "0"
        + "1" + "0" + "0";
    for _ in 0..60 {
        want.push('0');
    }
    while want.len() % 8 != 0 {
        want.push('0');
    }
    assert_eq!(text, want);
}

#[test]
fn first_code_is_the_difference_to_the_center() {
    let tables = tables();
    let enc = fine_mtx_encoder(&tables);
    let f = decode_joc(&encode_joc(&[[0, 191, 95, 96, 97]], 0, &enc), &tables).unwrap();
    let first: Vec<i32> = f.objects[0].matrix[0].iter().map(|r| r[0]).collect();
    assert_eq!(first, vec![96, 95, 191, 0, 1]);
    assert!(f.objects[0].matrix[0].iter().all(|r| r[1..].iter().all(|&v| v == 0)));
    assert_eq!((f.gain_pow, f.gain_frac, f.dmx_config), (4, 0, 0));
}

/// Bits as bytes.
fn pack(bits: &str) -> Vec<u8> {
    let mut v = Vec::new();
    let b: Vec<u8> = bits.bytes().filter(|c| *c != b' ').map(|c| c - b'0').collect();
    for c in b.chunks(8) {
        let mut x = 0u8;
        for i in 0..8 {
            x = 2 * x + c.get(i).copied().unwrap_or(0);
        }
        v.push(x);
    }
    v
}

#[test]
fn refused_payloads() {
    let t = tables();
    assert_eq!(decode_joc(&pack("101 000000 000"), &t).unwrap_err(), JocError::DmxConfig(5));
    assert_eq!(decode_joc(&pack("000 000000 011"), &t).unwrap_err(), JocError::ExtConfig(3));
    // An object whose codes never come.
    let cut = pack("000 000000 000 100 00000 0000000000 1 001 0 1 0 0 1");
    assert_eq!(decode_joc(&cut, &t).unwrap_err(), JocError::HuffPastEnd);
    // Codes of one bit each, read past the end.
    let short = pack("000 000000 000 100 00000 0000000000 1 111 0 1 0 0 0");
    match decode_joc(&short, &t).unwrap_err() {
        JocError::Overrun { used, end } => assert_eq!((used, end), (38 + 5 * 23, 40)),
        e => panic!("{e:?}"),
    }
    // A tree that names a node it does not have.
    let mut bad = tables();
    bad.fine_generic = vec![[-1, 7]];
    assert_eq!(decode_joc(&cut, &bad).unwrap_err(), JocError::HuffNode(7));
}

#[test]
fn sparse_and_silent_objects() {
    let t = tables();
    // Two objects: the first silent, the second sparse with three bands, steep, two data points.
    let bits = "001 000001 000 101 00011 0000000111".to_string()
        + "0"
        + "1 001 1 0 1 1 00010 00101"
        // data point 0: channel 3, channel codes 0 0; gains 0 0 0
        + "011 0 0 0 0 0"
        // data point 1: channel 6, channel codes 0 0; gains 0 0 0
        + "110 0 0 0 0 0";
    let f = decode_joc(&pack(&bits), &t).unwrap();
    assert_eq!((f.dmx_config, f.channel_count, f.object_count), (1, 7, 2));
    assert_eq!((f.gain_pow, f.gain_frac, f.seq), (5, 3, 7));
    assert!(!f.objects[0].active);
    let o = &f.objects[1];
    assert!(o.active && o.sparse && o.steep_slope);
    assert_eq!((o.bands_idx, o.bands, o.quant, o.data_points), (1, 3, 0, 2));
    assert_eq!(o.timeslot_offsets, [3, 6]);
    assert_eq!(o.channels, vec![vec![3, 0, 0], vec![6, 0, 0]]);
    assert_eq!(o.vectors, vec![vec![0, 0, 0], vec![0, 0, 0]]);
    assert!(o.matrix.is_empty());
}

#[test]
fn last_leaf_of_a_symbol_counts() {
    // Symbol 1 hangs at 10 and at 11.
    let t = vec![[-1, 1], [-2, -2]];
    let enc = HuffEnc::from_tree(&t);
    let mut w = damf2joc::bits::BitWriter::new();
    enc.put(&mut w, 1);
    enc.put(&mut w, 0);
    assert_eq!(w.snapshot(), (vec![0b1100_0000], 3));
}

#[test]
fn container_at_any_bit() {
    // Three bits, then syncword, length 1, one byte.
    let bits = "101 0101100000111000 0000000000000001 11110000 1";
    let (at, rest) = find_emdf_anywhere(&pack(bits)).unwrap();
    assert_eq!(at, 3);
    assert_eq!(&rest[..5], &[0x58, 0x38, 0x00, 0x01, 0xF0]);
    // A length of zero, or one that does not fit, is no container.
    assert!(find_emdf_anywhere(&pack("101 0101100000111000 0000000000000000 11110000 1")).is_none());
    assert!(find_emdf_anywhere(&pack("101 0101100000111000 0000000000000010 11110000 1")).is_none());
    assert!(find_emdf_anywhere(&[0x58, 0x38]).is_none());
}

#[test]
fn unusable_tables() {
    assert!(tables().usable());
    assert!(fine_mtx_encoder(&tables()).covers());
    let mut t = tables();
    t.pos_index_7ch.clear();
    assert!(!t.usable());
    // A node that leads back to the root never ends.
    let mut t = tables();
    t.fine_generic = vec![[-1, 0]];
    assert!(!t.usable());
    t.fine_generic = vec![[-1, 5]];
    assert!(!t.usable());
    // Too few symbols.
    t.fine_generic = tree(191);
    assert!(t.usable());
    assert!(!fine_mtx_encoder(&t).covers());
}
