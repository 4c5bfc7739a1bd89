use damf2joc::eac3::{crc16, find_sync, parse_frames, read_frame_header, FrameInfo};
use damf2joc::inject::{inject_aux, read_aux};
use damf2joc::stream::{
    inject_stream, parse_frames_io, parse_frames_io_chunked, transform_frames_io,
    transform_frames_io_chunked, Event, FrameWalker,
};

/// Build a synthetic E-AC-3 syncframe of `size` bytes (even, 4..=4096): valid syncword +
/// `words_per_syncframe` header so the header reports `size`; body filled with `fill`.
fn synth_frame(size: usize, fill: u8) -> Vec<u8> {
    assert!(size >= 4 && size % 2 == 0 && size <= 4096);
    let words = (size / 2 - 1) as u16; // 11-bit field
    let mut f = vec![fill; size];
    f[0] = 0x0B;
    f[1] = 0x77;
    f[2] = ((words >> 8) & 0x07) as u8; // strmtyp=0, substreamid=0, words[10:8]
    f[3] = (words & 0xFF) as u8; // words[7:0]
    f
}

fn synth_stream() -> Vec<u8> {
    let mut d = Vec::new();
    for &s in &[8usize, 16, 4, 32, 6] {
        d.extend_from_slice(&synth_frame(s, 0xAA));
    }
    d
}

#[test]
fn identity_reproduces_input_across_tiny_chunks() {
    let data = synth_stream();
    for &chunk in &[8usize, 7, 13, 1024] {
        let (out, n) = transform_frames_io_chunked(&data, chunk, |_i, _n, f: &[u8]| f.to_vec());
        assert_eq!(out, data, "identity must reproduce input (chunk={chunk})");
        assert_eq!(n, 5, "frame count (chunk={chunk})");
    }
}

#[test]
fn passthrough_matches_inject_stream() {
    let data = synth_stream();
    let mem = inject_stream(&data, |_f, _i| None); // None => copy each frame verbatim
    let (streamed, _) = transform_frames_io_chunked(&data, 9, |_i, _n, f: &[u8]| f.to_vec());
    assert_eq!(streamed, mem);
    assert_eq!(streamed, data);
}

#[test]
fn resync_gaps_copied_verbatim() {
    // Junk (non-syncword) bytes before, between, and after frames must survive untouched.
    let mut data = vec![0x01, 0x02, 0x03];
    data.extend_from_slice(&synth_frame(8, 0xAA));
    data.extend_from_slice(&[0x10, 0x20]); // gap
    data.extend_from_slice(&synth_frame(6, 0xBB));
    data.push(0x55); // trailing
    let (out, _) = transform_frames_io_chunked(&data, 5, |_i, _n, f: &[u8]| f.to_vec());
    assert_eq!(out, data);
}

#[test]
fn growth_matches_in_memory_reference() {
    let mut data = vec![0x09]; // leading gap byte
    data.extend_from_slice(&synth_frame(8, 0xAA));
    data.extend_from_slice(&[0x11, 0x22]); // gap
    data.extend_from_slice(&synth_frame(12, 0xCC));
    let grow = |f: &[u8]| {
        let mut v = f.to_vec();
        v.extend_from_slice(b"\xEE\xEE");
        v
    };
    // In-memory reference over parse_frames.
    let frames = parse_frames(&data);
    let mut want = Vec::new();
    let mut cursor = 0usize;
    for f in &frames {
        if f.offset > cursor {
            want.extend_from_slice(&data[cursor..f.offset]);
        }
        want.extend_from_slice(&grow(&data[f.offset..f.offset + f.size]));
        cursor = f.offset + f.size;
    }
    if cursor < data.len() {
        want.extend_from_slice(&data[cursor..]);
    }
    // Streaming, tiny chunk to force frame/gap splits across reads.
    let (got, _) = transform_frames_io_chunked(&data, 5, |_i, _n, f: &[u8]| grow(f));
    assert_eq!(got, want);
}

#[test]
fn parse_frames_io_matches_parse_frames() {
    // The streamed grid-builder must reproduce parse_frames exactly: same frames, same fields, same
    // absolute offsets, at any chunk size, including chunks that split frames and resync gaps across
    // reads.
    let mut data = vec![0x09]; // leading gap byte
    data.extend_from_slice(&synth_frame(8, 0xAA));
    data.extend_from_slice(&[0x11, 0x22]); // mid gap
    data.extend_from_slice(&synth_frame(32, 0xCC));
    data.extend_from_slice(&synth_frame(6, 0xBB));
    let want = parse_frames(&data);
    assert_eq!(want.len(), 3, "fixture should parse to 3 frames");
    for &chunk in &[8usize, 7, 13, 64, 1024] {
        let got = parse_frames_io_chunked(&data, chunk);
        assert_eq!(got, want, "parse_frames_io must match parse_frames (chunk={chunk})");
    }
}

#[test]
fn usual_granularity_agrees_with_chunks() {
    let data = synth_stream();
    assert_eq!(parse_frames_io(&data), parse_frames(&data));
    let (out, n) = transform_frames_io(&data, |_i, _n, _f: &[u8]| vec![1, 2]);
    assert_eq!(n, 5);
    assert_eq!(out, vec![1, 2, 1, 2, 1, 2, 1, 2, 1, 2]);
}

#[test]
fn transform_sees_frames_without_a_place() {
    let mut data = vec![0x01];
    data.extend_from_slice(&synth_frame(8, 0));
    data.extend_from_slice(&synth_frame(10, 0));
    let (out, _) = transform_frames_io_chunked(&data, 8, |i: &FrameInfo, n: usize, f: &[u8]| {
        vec![i.offset as u8, i.size as u8, n as u8, f.len() as u8]
    });
    assert_eq!(out, vec![1, 0, 8, 0, 8, 0, 10, 1, 10]);
}

#[test]
fn truncated_last_frame_is_no_frame() {
    let mut data = synth_frame(8, 0xAA);
    data.extend_from_slice(&synth_frame(16, 0xBB)[..10]);
    assert_eq!(parse_frames(&data).len(), 2);
    assert_eq!(parse_frames_io_chunked(&data, 8).len(), 1);
    let (out, n) = transform_frames_io_chunked(&data, 8, |_i, _n, _f: &[u8]| vec![0xFF]);
    assert_eq!(n, 1);
    assert_eq!(out[0], 0xFF);
    assert_eq!(&out[1..], &data[8..]);
}

#[test]
fn walker_events() {
    let mut w = FrameWalker::new();
    assert!(matches!(w.step(), Event::More));
    w.feed(&[0x00, 0x0B]);
    // The last byte may start a syncword; the one in front of it does not.
    match w.step() {
        Event::Gap(g) => assert_eq!(g, vec![0x00]),
        _ => panic!("gap expected"),
    }
    assert!(matches!(w.step(), Event::More));
    assert_eq!(w.window(), 1);
    let f = synth_frame(8, 0x11);
    w.feed(&f[1..]);
    match w.step() {
        Event::Frame(info, bytes) => {
            assert_eq!(info.offset, 1);
            assert_eq!(info.size, 8);
            assert_eq!(bytes, f);
        }
        _ => panic!("frame expected"),
    }
    w.feed(&[0x0B, 0x77, 0x00]);
    assert!(matches!(w.step(), Event::More));
    w.end();
    match w.step() {
        Event::Rest(r) => assert_eq!(r, vec![0x0B, 0x77, 0x00]),
        _ => panic!("rest expected"),
    }
    assert!(matches!(w.step(), Event::Done));
}

#[test]
fn header_fields() {
    // strmtyp=1, substreamid=2, words=0x2FF, fscod=1, numblkscod=2,
    // acmod=7, lfe=1, bsid=16.
    let head = [0x0B, 0x77, 0x40 | (2 << 3) | 0x02, 0xFF, 0x40 | 0x20 | 0x0E | 0x01, 0x80, 0, 0];
    let f = read_frame_header(&head, 0);
    assert_eq!(
        f,
        FrameInfo {
            offset: 0,
            size: 1536,
            strmtyp: 1,
            substreamid: 2,
            blocks: 3,
            fscod: 1,
            sample_rate: 44100,
            acmod: 7,
            lfe: true,
            bsid: 16,
        }
    );
    assert_eq!(f.full_channels(), 5);
    assert_eq!(f.samples(), 768);
    // A reduced sample rate always has six blocks.
    let low = [0x0B, 0x77, 0x00, 0x01, 0xC0, 0x80];
    let f = read_frame_header(&low, 0);
    assert_eq!((f.size, f.blocks, f.fscod, f.sample_rate), (4, 6, 3, 0));
    assert_eq!(f.full_channels(), 2);
}

#[test]
fn sync_search() {
    let d = [0x0B, 0x0B, 0x77, 0x0B, 0x77];
    assert_eq!(find_sync(&d, 0), Some(1));
    assert_eq!(find_sync(&d, 2), Some(3));
    assert_eq!(find_sync(&d, 4), None);
}

#[test]
fn crc16_check_value() {
    assert_eq!(crc16(b"123456789"), 0xFEE8);
    assert_eq!(crc16(b""), 0);
}

#[test]
fn injected_stream_keeps_its_frames() {
    let mut data = vec![0x09];
    data.extend_from_slice(&synth_frame(8, 0xAA));
    data.extend_from_slice(&[0x11, 0x0B]); // a gap that ends as a syncword begins
    data.extend_from_slice(&synth_frame(12, 0xCC));
    data.extend_from_slice(&[0x0B]);
    let out = inject_stream(&data, |_f, i: usize| {
        if i == 0 {
            Some((vec![0xDE, 0xAD, 0xBE, 0xEF], 32))
        } else {
            Some((vec![0xA5, 0x5A], 12))
        }
    });
    let before = parse_frames(&data);
    let after = parse_frames(&out);
    assert_eq!(after.len(), before.len());
    let f0 = &out[after[0].offset..after[0].offset + after[0].size];
    let f1 = &out[after[1].offset..after[1].offset + after[1].size];
    assert_eq!(read_aux(f0), Some((vec![0xDE, 0xAD, 0xBE, 0xEF], 32)));
    assert_eq!(read_aux(f1), Some((vec![0xA5, 0x50], 12)));
    assert_eq!(f0, &inject_aux(&synth_frame(8, 0xAA), &[0xDE, 0xAD, 0xBE, 0xEF], 32)[..]);
    assert_eq!(&out[..1], &[0x09]);
    assert_eq!(out[out.len() - 1], 0x0B);
}

#[test]
fn zero_bits_leave_a_frame_unchanged() {
    let data = synth_stream();
    assert_eq!(inject_stream(&data, |_f, _i| Some((Vec::new(), 0))), data);
}

#[test]
fn cut_off_frame_is_copied() {
    let data = [0x0B, 0x77, 0x07, 0xFF, 0x00, 0x00];
    assert_eq!(inject_stream(&data, |_f, _i| None), data);
    assert_eq!(inject_stream(&data, |_f, _i| Some((vec![1], 8))), data);
    // Two whole frames, junk, and one that is cut off: only the whole ones get a payload.
    let mut d = synth_frame(16, 0xAA);
    d.extend_from_slice(&synth_frame(32, 0xBB));
    d.extend_from_slice(&[1, 2, 3]);
    d.extend_from_slice(&synth_frame(40, 0xCC)[..20]);
    let mut asked = Vec::new();
    let out = inject_stream(&d, |f, i| {
        asked.push((f.offset, f.size, i));
        Some((vec![7, 8], 16))
    });
    assert_eq!(asked, vec![(0, 16, 0), (16, 32, 1)]);
    assert_eq!(&out[out.len() - 23..], &d[48..]);
    let frames = parse_frames(&out);
    assert_eq!(frames.len(), 3);
    for f in &frames[..2] {
        assert_eq!(read_aux(&out[f.offset..f.offset + f.size]), Some((vec![7, 8], 16)));
    }
    let (streamed, n) = transform_frames_io(&d, |_i, _n, f: &[u8]| inject_aux(f, &[7, 8], 16));
    assert_eq!((streamed, n), (out, 2));
}

#[test]
fn cut_off_frame_is_no_streamed_frame() {
    let mut d = synth_frame(16, 0xAA);
    d.extend_from_slice(&synth_frame(40, 0xCC)[..20]);
    let all = parse_frames(&d);
    assert_eq!(all.len(), 2);
    for chunk in [8usize, 9, 64] {
        assert_eq!(parse_frames_io_chunked(&d, chunk), all[..1]);
    }
}

#[test]
fn window_stays_small() {
    // Junk without a syncword, then a frame, in pieces of 1000 bytes.
    let mut d = vec![0x0B; 300_000];
    d.extend_from_slice(&synth_frame(4096, 0xAA));
    d.extend_from_slice(&vec![0x77; 5000]);
    let mut w = FrameWalker::new();
    let mut out = Vec::new();
    let mut frames = 0;
    let mut read = 0;
    loop {
        assert!(w.window() < 1000 + 4096);
        match w.step() {
            Event::More => {
                assert!(w.window() < 4096);
                let n = (d.len() - read).min(1000);
                w.feed(&d[read..read + n]);
                read += n;
                if n < 1000 {
                    w.end();
                }
            }
            Event::Gap(b) | Event::Rest(b) => out.extend(b),
            Event::Frame(_, b) => {
                frames += 1;
                out.extend(b);
            }
            Event::Done => break,
        }
    }
    assert_eq!(frames, 1);
    assert_eq!(out, d);
}
