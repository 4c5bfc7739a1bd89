use damf2joc::eac3::FrameInfo;
use damf2joc::render::{advance, bin_of, s24be, span_at, start_samples, write_wav_header, Span};

fn frame(strmtyp: u8, blocks: u8) -> FrameInfo {
    FrameInfo {
        offset: 0,
        size: 64,
        strmtyp,
        substreamid: 0,
        blocks,
        fscod: 0,
        sample_rate: 48000,
        acmod: 7,
        lfe: true,
        bsid: 16,
    }
}

#[test]
fn samples_of_three_bytes() {
    assert_eq!(s24be(&[0x00, 0x00, 0x01]), 1);
    assert_eq!(s24be(&[0x7F, 0xFF, 0xFF]), 8388607);
    assert_eq!(s24be(&[0x80, 0x00, 0x00]), -8388608);
    assert_eq!(s24be(&[0xFF, 0xFF, 0xFE, 0x55]), -2);
    assert_eq!(s24be(&[0x01, 0x02, 0x03]), 66051);
}

#[test]
fn wav_header_of_one_second() {
    let h = write_wav_header(6, 48000, 48000).unwrap();
    // 48000 frames of 24 bytes: 1152000 = 0x119400.
    let mut want: Vec<u8> = Vec::new();
    want.extend_from_slice(b"RIFF");
    want.extend_from_slice(&[0x3C, 0x94, 0x11, 0x00]);
    want.extend_from_slice(b"WAVEfmt ");
    want.extend_from_slice(&[40, 0, 0, 0, 0xFE, 0xFF, 6, 0]);
    want.extend_from_slice(&[0x80, 0xBB, 0x00, 0x00]);
    want.extend_from_slice(&[0x00, 0x94, 0x11, 0x00]);
    want.extend_from_slice(&[24, 0, 32, 0, 22, 0, 32, 0]);
    want.extend_from_slice(&[0x3F, 0, 0, 0]);
    want.extend_from_slice(&[3, 0, 0, 0, 0, 0, 0x10, 0, 0x80, 0, 0, 0xAA, 0, 0x38, 0x9B, 0x71]);
    want.extend_from_slice(b"data");
    want.extend_from_slice(&[0x00, 0x94, 0x11, 0x00]);
    assert_eq!(h, want);
    assert_eq!(h.len(), 68);
}

#[test]
fn wav_header_refuses_four_gigabytes() {
    // 178956968 * 24 + 60 = 4294967292 is the largest below 2^32 - 1.
    assert!(write_wav_header(6, 48000, 178956968).is_some());
    assert!(write_wav_header(6, 48000, 178956969).is_none());
}

#[test]
fn spans_between_keys() {
    let keys = vec![100, 200, 200, 400];
    assert_eq!(span_at(&vec![], 5), Span::Empty);
    assert_eq!(span_at(&keys, 0), Span::At(0));
    assert_eq!(span_at(&keys, 99), Span::At(0));
    assert_eq!(span_at(&keys, 100), Span::Between { from: 0, num: 0, den: 100 });
    assert_eq!(span_at(&keys, 150), Span::Between { from: 0, num: 50, den: 100 });
    assert_eq!(span_at(&keys, 200), Span::Between { from: 2, num: 0, den: 200 });
    assert_eq!(span_at(&keys, 399), Span::Between { from: 2, num: 199, den: 200 });
    assert_eq!(span_at(&keys, 400), Span::At(3));
    assert_eq!(span_at(&keys, 9999), Span::At(3));
}

#[test]
fn cursor_agrees_with_the_search() {
    let keys = vec![0, 3, 3, 10, 50];
    let mut cursor = 0;
    for t in 0..60 {
        let (c, span) = advance(&keys, cursor, t);
        assert!(c >= cursor);
        cursor = c;
        assert_eq!(span, span_at(&keys, t), "t={t}");
    }
    assert_eq!(cursor, 4);
}

#[test]
fn starts_skip_dependent_frames() {
    let frames = vec![frame(0, 6), frame(1, 6), frame(0, 1), frame(2, 6), frame(0, 6)];
    let starts = start_samples(&frames);
    assert_eq!(starts, vec![0, 1536, 1536, 1792, 1792]);
    assert_eq!(bin_of(&starts, &frames, 0, 0), Some(0));
    assert_eq!(bin_of(&starts, &frames, 0, 1535), Some(0));
    assert_eq!(bin_of(&starts, &frames, 0, 1536), Some(2));
    assert_eq!(bin_of(&starts, &frames, 2, 1791), Some(2));
    assert_eq!(bin_of(&starts, &frames, 2, 1792), Some(4));
    assert_eq!(bin_of(&starts, &frames, 4, 3327), Some(4));
    assert_eq!(bin_of(&starts, &frames, 4, 3328), None);
}
