use damf2joc::emdf::{
    decode_emdf_oamd, encode_frame_emdf, extract_emdf_payloads, find_protection, list_emdf_payloads,
    verify_emdf_protection, wrap_emdf, FoundProtection, Protection, PAYLOAD_JOC, PAYLOAD_OAMD,
};
use damf2joc::oamd::{
    dump_oamd_verbose, encode_oamd, objects_fit, DecodedObject, Distance, ObjectCode, PositionCode, Priority, Ramp,
    ScreenRef,
};
use damf2joc::protect::{
    set_protector, truncate_tag, ActiveProtector, EmdfProtector, KeyedProtector, PublicCrcProtector,
    PROT_LEN,
};

/// Quantize room coordinates to position codes.
fn quantize(x: f32, y: f32, z: f32) -> ObjectCode {
    let ox = ((x + 1.0) * 0.5).clamp(0.0, 1.0);
    let oy = ((1.0 - y) * 0.5).clamp(0.0, 1.0);
    let oz = z.clamp(0.0, 1.0);
    ObjectCode {
        px: (ox * 62.0).round() as u32,
        py: (oy * 62.0).round() as u32,
        pz: (oz * 15.0).round() as u32,
    }
}

fn scattered() -> Vec<ObjectCode> {
    (0..13)
        .map(|i| {
            let t = i as f32 / 12.0;
            quantize(t * 2.0 - 1.0, 1.0 - t * 2.0, t)
        })
        .collect()
}

#[test]
fn oamd_emdf_roundtrip() {
    // 13 dynamic objects scattered around + 1 LFE bed.
    let objs = scattered();
    let emdf = encode_frame_emdf(&objs, true, &PublicCrcProtector);
    assert_eq!(&emdf[0..2], &[0x58, 0x38], "EMDF sync");

    let decoded = decode_emdf_oamd(&emdf).expect("decode OAMD");
    assert_eq!(decoded.object_count, 14, "1 LFE + 13 objects");
    assert_eq!(decoded.bed_count, 1);
    let dyn_objs: Vec<_> = decoded.objects.iter().filter(|o| !o.is_bed).collect();
    assert_eq!(dyn_objs.len(), 13, "13 dynamic objects recovered");

    // Positions should round-trip through quantization.
    for (i, o) in dyn_objs.iter().enumerate() {
        assert_eq!((o.px, o.py, o.pz), (objs[i].px, objs[i].py, objs[i].pz), "object {i} position");
    }
}

#[test]
fn oamd_bytes() {
    let out = encode_oamd(&[ObjectCode { px: 0b101010, py: 0b010101, pz: 0b1001 }], false);
    let text: String = out.iter().map(|b| format!("{b:08b}")).collect();
    // version, count - 1, dynamic only, LFE, alternate data, elements; element id, size - 1 = 44 in two
    // groups, discard.
    let head = "00".to_string() + "00000" + "1" + "0" + "0" + "0001" + "0001" + "00011" + "11000" + "0";
    let element = "00".to_string() + "000" + "000000" + "10" + "1";
    let block = "0".to_string() + "11" + "1" + "101010" + "010101" + "1" + "1001" + "0" + "0001" + "00" + "0"
        + "0" + "0";
    let mut bits = head + &element + &block;
    while bits.len() % 8 != 0 {
        bits.push('0');
    }
    assert_eq!(text, bits);
}

#[test]
fn many_objects_use_the_long_count() {
    let objs: Vec<ObjectCode> =
        (0..140).map(|i| ObjectCode { px: i % 63, py: (i * 7) % 63, pz: i % 16 }).collect();
    let emdf = encode_frame_emdf(&objs, true, &PublicCrcProtector);
    let d = decode_emdf_oamd(&emdf).expect("decode OAMD");
    assert_eq!(d.object_count, 141);
    assert_eq!(d.objects[0], DecodedObject { px: 0, py: 0, pz: 0, is_bed: true });
    for (i, o) in objs.iter().enumerate() {
        assert_eq!(
            d.objects[i + 1],
            DecodedObject { px: o.px, py: o.py, pz: o.pz, is_bed: false }
        );
    }
}

#[test]
fn dump_shows_every_field() {
    let out = encode_oamd(&[ObjectCode { px: 1, py: 2, pz: 3 }], true);
    let d = dump_oamd_verbose(&out);
    assert_eq!((d.version, d.object_count, d.dyn_only, d.lfe, d.alt), (0, 2, true, true, false));
    assert_eq!(d.elements.len(), 1);
    let e = &d.elements[0];
    assert_eq!((e.id, e.size, e.discard, e.sample_offset_code), (1, 49, false, 0));
    assert_eq!(e.blocks.len(), 1);
    assert_eq!((e.blocks[0].offset_factor, e.blocks[0].ramp_code), (0, 2));
    assert_eq!(e.blocks[0].ramp, Ramp::Implied);
    assert!(e.reserved_absent);
    assert_eq!(e.objects.len(), 2);
    let bed = e.objects[0];
    assert!(bed.active && bed.render.is_none() && bed.table_bytes == 0);
    assert_eq!(bed.gain.unwrap().idx, 0);
    let o = e.objects[1];
    assert_eq!(o.gain.unwrap().idx, 3);
    assert_eq!(o.gain.unwrap().code, None);
    assert_eq!(o.priority, Some(Priority::Default));
    let r = o.render.unwrap();
    assert_eq!(r.position, Some(PositionCode::Absolute { px: 1, py: 2, zsign: 1, pz: 3 }));
    assert_eq!(r.distance, Some(Distance::Unspecified));
    assert_eq!(r.zone, Some(1));
    assert_eq!(r.size.unwrap().idx, 0);
    assert_eq!(r.screen, Some(ScreenRef::Unused));
    assert!(!r.snap);
    assert_eq!(e.used_end, e.end + 1);
}

#[test]
fn nothing_is_all_zero_blocks() {
    // An empty payload reads as zeros: one object, no element.
    let d = dump_oamd_verbose(&[]);
    assert_eq!((d.object_count, d.dyn_only, d.elements.len()), (1, false, 0));
}

#[test]
fn payloads_roundtrip_with_every_protector() {
    let payloads: Vec<(u8, Vec<u8>)> = vec![
        (PAYLOAD_OAMD, vec![1, 2, 3]),
        (PAYLOAD_JOC, (0..300).map(|i| i as u8).collect()),
        (31, vec![]),
        (1, vec![0x02, 0x00]),
    ];
    let sizes: Vec<(u8, usize)> = payloads.iter().map(|(id, p)| (*id, p.len())).collect();
    let keyed = KeyedProtector { key: b"secret key".to_vec(), key_id: 5 };
    for out in [wrap_emdf(&payloads, &PublicCrcProtector), wrap_emdf(&payloads, &keyed)] {
        assert_eq!(extract_emdf_payloads(&out), Some(payloads.clone()));
        assert_eq!(list_emdf_payloads(&out), Some((out.len() - 4, sizes.clone())));
        // Bytes in front of the syncword do not matter.
        let mut shifted = vec![0x00, 0x58];
        shifted.extend_from_slice(&out);
        assert_eq!(extract_emdf_payloads(&shifted), Some(payloads.clone()));
    }
}

#[test]
fn no_container() {
    assert_eq!(extract_emdf_payloads(&[0x58]), None);
    assert_eq!(list_emdf_payloads(&[0x38, 0x58, 0x39]), None);
    assert!(decode_emdf_oamd(&[1, 2, 3]).is_none());
    assert!(find_protection(&[]).is_none());
    // A container without OAMD.
    let out = wrap_emdf(&[(2, vec![4])], &PublicCrcProtector);
    assert!(decode_emdf_oamd(&out).is_none());
}

#[test]
fn payload_over_the_end_is_listed_but_not_extracted() {
    let out = wrap_emdf(&[(3, vec![9; 50])], &PublicCrcProtector);
    let cut = &out[..20];
    assert_eq!(list_emdf_payloads(cut), Some((out.len() - 4, vec![(3, 50)])));
    assert_eq!(extract_emdf_payloads(cut), Some(vec![]));
    assert!(matches!(verify_emdf_protection(cut), Some(Protection::Overran)));
    assert!(matches!(verify_emdf_protection(&out[..4]), Some(Protection::RanOff)));
}

#[test]
fn public_protection_matches() {
    let out = encode_frame_emdf(&scattered(), true, &PublicCrcProtector);
    match find_protection(&out) {
        Some(FoundProtection::At { start, values, prim_bits, sec_bits }) => {
            assert_eq!((start, prim_bits, sec_bits), (0, 32, 8));
            assert!(values + 40 <= out.len() * 8);
        }
        _ => panic!("protection expected"),
    }
    match verify_emdf_protection(&out) {
        Some(Protection::Checked(r)) => {
            assert_eq!((r.prim_bits, r.sec_bits), (32, 8));
            assert_eq!(r.stored_prim, r.our_prim);
            assert_eq!(r.stored_sec, r.our_sec);
            assert_eq!(r.container, out);
        }
        _ => panic!("report expected"),
    }
}

#[test]
fn keyed_protection_does_not_match_the_public_one() {
    let keyed = KeyedProtector { key: vec![1, 2, 3], key_id: 3 };
    let out = encode_frame_emdf(&scattered(), true, &keyed);
    match verify_emdf_protection(&out) {
        Some(Protection::Checked(r)) => assert_ne!(r.stored_prim, r.our_prim),
        _ => panic!("report expected"),
    }
    // version 00, key_id 011
    assert_eq!(out[4] >> 3, 3);
}

#[test]
fn keyed_values() {
    let k = KeyedProtector { key: b"secret key".to_vec(), key_id: 5 };
    let covered = [0xDE, 0xAD, 0xBE, 0xEF, 0x01];
    assert_eq!(k.key_id(), 5);
    assert_eq!(k.length_codes(), (2, 1));
    // HMAC-SHA256 over the key id and the bytes that hold the covered bits.
    assert_eq!(k.primary(&covered, 32), 0x8FA8_9455);
    assert_eq!(k.primary(&covered, 29), 0x8FA8_9455);
    assert_eq!(k.secondary(&covered, 33), 0x89);
    assert_eq!(k.primary(&covered, 40), 0x89E1_89B6);
}

#[test]
fn public_values() {
    let p = PublicCrcProtector;
    assert_eq!(p.key_id(), 0);
    assert_eq!(p.primary(b"123456789", 72), 0x89A1_897F);
    assert_eq!(p.secondary(b"123456789", 13), 0xB9);
}

#[test]
fn tags_are_cut_from_the_top() {
    let tag = [0x8F, 0xA8, 0x94, 0x55];
    assert_eq!(truncate_tag(&tag, 32), 0x8FA8_9455);
    assert_eq!(truncate_tag(&tag, 9), 0x11F);
    assert_eq!(truncate_tag(&tag, 0), 0);
    let long: Vec<u8> = (1..=16).collect();
    assert_eq!(truncate_tag(&long, 128), 0x0102_0304_0506_0708_090A_0B0C_0D0E_0F10);
}

#[test]
fn first_protector_stays() {
    let mut active = ActiveProtector::new();
    assert_eq!(active.key_id(), 0);
    let payloads = [(PAYLOAD_OAMD, vec![7u8])];
    assert_eq!(wrap_emdf(&payloads, &active), wrap_emdf(&payloads, &PublicCrcProtector));
    set_protector(&mut active, KeyedProtector { key: vec![1], key_id: 2 });
    set_protector(&mut active, KeyedProtector { key: vec![9], key_id: 4 });
    assert_eq!(active.key_id(), 2);
    let keyed = KeyedProtector { key: vec![1], key_id: 2 };
    assert_eq!(wrap_emdf(&payloads, &active), wrap_emdf(&payloads, &keyed));
}

#[test]
fn field_widths() {
    assert_eq!(PROT_LEN, [0, 8, 32, 128]);
}

#[test]
fn room_for_objects() {
    // 14 + 5 + 31 * 140 = 4359 bits, of at most 4368.
    assert!(objects_fit(140, true));
    assert!(!objects_fit(141, true));
    assert!(objects_fit(0, true));
    assert!(!objects_fit(0, false));
    assert!(!objects_fit(usize::MAX, false));
}

#[test]
fn secondary_value_behind_a_long_primary() {
    // An empty container with widths of 128 and 8 bits: version and key 00000, end mark 00000, 11 01.
    let mut bits = "0101100000111000".to_string() + "0000000000010011" + "0000000000" + "1101";
    for i in 0..16u8 {
        bits += &format!("{:08b}", 0xA0 + i);
    }
    bits += "01011010";
    bits += "00";
    let data: Vec<u8> =
        (0..bits.len() / 8).map(|k| u8::from_str_radix(&bits[8 * k..8 * k + 8], 2).unwrap()).collect();
    match verify_emdf_protection(&data) {
        Some(Protection::Checked(r)) => {
            assert_eq!((r.prim_bits, r.sec_bits, r.protection_start), (128, 8, 46));
            assert_eq!((r.stored_prim, r.stored_sec), (0xA0A1_A2A3, 0x5A));
            assert_eq!(r.container, data);
        }
        _ => panic!("report expected"),
    }
}
