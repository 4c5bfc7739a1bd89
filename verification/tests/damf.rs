use damf2joc::damf::{
    events_per_id, keyframes, lfe_channel, lfe_only_bed, object_channel, read_caf_info, rendered,
    timeline_end, timelines, BedInstance, CafError, CafParser, ChannelRef, Event, Key, ObjectRef, Presentation,
};
use damf2joc::tally::tally;

fn channel(name: &str, id: u32) -> ChannelRef {
    ChannelRef { channel: name.to_string(), id }
}

fn presentation(beds: Vec<Vec<(&str, u32)>>, objects: Vec<u32>) -> Presentation {
    Presentation {
        metadata: "m".to_string(),
        audio: "a".to_string(),
        bed_instances: beds
            .into_iter()
            .map(|b| BedInstance { channels: b.into_iter().map(|(n, id)| channel(n, id)).collect() })
            .collect(),
        objects: objects.into_iter().map(|id| ObjectRef { id }).collect(),
    }
}

#[test]
fn bed_channels_in_order() {
    let p = presentation(vec![vec![("L", 4), ("lfe", 3)], vec![], vec![("LfE", 8), ("LFE2", 9)]], vec![]);
    let bed: Vec<(bool, u32)> = p.bed_list().iter().map(|c| (c.lfe, c.id)).collect();
    assert_eq!(bed, vec![(false, 4), (true, 3), (true, 8), (false, 9)]);
    assert_eq!(lfe_channel(&p.bed_list()), Some(2));
    assert!(!lfe_only_bed(&p.bed_list()));
}

#[test]
fn lfe_bed_alone() {
    let p = presentation(vec![vec![("LFE", 3)]], vec![]);
    assert!(lfe_only_bed(&p.bed_list()));
    let two = presentation(vec![vec![("LFE", 3)], vec![("LFE", 4)]], vec![]);
    assert!(!lfe_only_bed(&two.bed_list()));
    assert!(!lfe_only_bed(&vec![]));
    assert_eq!(lfe_channel(&vec![]), None);
}

#[test]
fn objects_follow_the_bed() {
    let p = presentation(vec![], vec![10, 12, 11, 12]);
    assert_eq!(object_channel(&p.objects, 1, 10), Some(1));
    assert_eq!(object_channel(&p.objects, 1, 11), Some(3));
    assert_eq!(object_channel(&p.objects, 1, 12), Some(4));
    assert_eq!(object_channel(&p.objects, 1, 13), None);
}

fn event(id: Option<u32>, at: Option<u64>, active: Option<bool>, pos: Option<usize>) -> Event {
    Event { id, sample_pos: at, active, pos }
}

fn events() -> Vec<Event> {
    vec![
        event(Some(10), None, None, None),
        event(Some(11), Some(5), None, Some(3)),
        event(Some(10), Some(20), Some(false), Some(3)),
        event(None, Some(90), Some(true), Some(3)),
        event(Some(10), Some(30), None, Some(2)),
        event(Some(10), Some(25), Some(true), None),
    ]
}

#[test]
fn keys_carry_state_on() {
    let keys = keyframes(&events(), 10);
    assert_eq!(
        keys,
        vec![
            Key { at: 0, pos: None, active: true },
            Key { at: 20, pos: Some(2), active: false },
            Key { at: 30, pos: Some(2), active: false },
            Key { at: 25, pos: Some(2), active: true },
        ]
    );
    assert!(keyframes(&events(), 12).is_empty());
}

#[test]
fn objects_with_events_are_rendered() {
    let p = presentation(vec![], vec![11, 12, 10]);
    let lines = timelines(&p.objects, &events());
    assert_eq!(lines.iter().map(|k| k.len()).collect::<Vec<_>>(), vec![1, 0, 4]);
    let r = rendered(&p.objects, 2, &events());
    assert_eq!(r.iter().map(|(ch, k)| (*ch, k.len())).collect::<Vec<_>>(), vec![(2, 1), (4, 4)]);
    assert_eq!(r[1].1, keyframes(&events(), 10));
}

#[test]
fn events_are_counted() {
    assert_eq!(timeline_end(&events()), 90);
    assert_eq!(timeline_end(&vec![]), 0);
    assert_eq!(events_per_id(&events()), vec![(10, 4), (11, 1)]);
    assert_eq!(tally(&vec![7, 3, 7, 0, 7]), vec![(0, 1), (3, 1), (7, 3)]);
}

fn chunk(kind: &[u8; 4], size: i64, body: &[u8]) -> Vec<u8> {
    let mut v = kind.to_vec();
    v.extend_from_slice(&size.to_be_bytes());
    v.extend_from_slice(body);
    v
}

fn desc() -> Vec<u8> {
    let mut b = 48000f64.to_be_bytes().to_vec();
    for v in [0x6C70636Du32, 2, 42, 1, 14, 24] {
        b.extend_from_slice(&v.to_be_bytes());
    }
    b
}

fn caf(chunks: &[Vec<u8>]) -> Vec<u8> {
    let mut v = b"caff\x00\x01\x00\x00".to_vec();
    for c in chunks {
        v.extend_from_slice(c);
    }
    v
}

#[test]
fn caf_header() {
    let file = caf(&[
        chunk(b"free", 3, &[1, 2, 3]),
        chunk(b"desc", 32, &desc()),
        chunk(b"data", 4 + 84, &[0; 90]),
    ]);
    let i = read_caf_info(&file).unwrap();
    assert_eq!(f64::from_bits(i.sample_rate), 48000.0);
    assert_eq!(&i.format_id, b"lpcm");
    assert_eq!((i.format_flags, i.bytes_per_packet, i.frames_per_packet), (2, 42, 1));
    assert_eq!((i.channels, i.bits_per_channel), (14, 24));
    assert_eq!((i.data_offset, i.data_bytes, i.frames()), (8 + 15 + 44 + 12 + 4, 84, 2));
    assert!(!i.is_float() && !i.is_big_endian());
}

#[test]
fn caf_data_to_the_end() {
    let file = caf(&[chunk(b"desc", 32, &desc()), chunk(b"data", -1, &[0; 46])]);
    let i = read_caf_info(&file).unwrap();
    assert_eq!((i.data_bytes, i.frames()), (42, 1));
    let short = caf(&[chunk(b"desc", 32, &desc()), chunk(b"data", 2, &[0; 46])]);
    assert_eq!(read_caf_info(&short).unwrap().data_bytes, 0);
}

#[test]
fn caf_long_description_and_no_data() {
    let mut d = desc();
    d.extend_from_slice(&[9; 8]);
    let file = caf(&[chunk(b"desc", 40, &d)]);
    let i = read_caf_info(&file).unwrap();
    assert_eq!((i.data_offset, i.data_bytes), (0, 0));
}

#[test]
fn caf_errors() {
    assert_eq!(read_caf_info(b"caf"), Err(CafError::Truncated));
    assert_eq!(read_caf_info(b"RIFF0000"), Err(CafError::NotCaf));
    assert_eq!(read_caf_info(&caf(&[])), Err(CafError::MissingDesc));
    assert_eq!(read_caf_info(&caf(&[b"desc\x00".to_vec()])), Err(CafError::Truncated));
    assert_eq!(read_caf_info(&caf(&[chunk(b"desc", 32, &desc()[..31])])), Err(CafError::Truncated));
    assert_eq!(read_caf_info(&caf(&[chunk(b"data", 4, &[0; 4])])), Err(CafError::DataBeforeDesc));
    assert_eq!(
        read_caf_info(&caf(&[chunk(b"data", 4, &[0; 3])])),
        Err(CafError::Truncated)
    );
    assert_eq!(
        read_caf_info(&caf(&[chunk(b"free", -2, &[])])),
        Err(CafError::NegativeSize(0x66726565))
    );
}

#[test]
fn caf_piece_by_piece() {
    let file = caf(&[chunk(b"desc", 32, &desc()), chunk(b"data", 46, &[0; 46])]);
    let mut p = CafParser::new(file.len() as u64);
    let mut asked = Vec::new();
    while let Some((at, n)) = p.need() {
        assert!(p.result().is_none());
        asked.push((at, n));
        p.feed(&file[at as usize..at as usize + n]);
    }
    assert_eq!(asked, vec![(0, 4), (8, 12), (20, 32), (52, 12)]);
    assert_eq!(p.result(), Some(read_caf_info(&file)));
}
