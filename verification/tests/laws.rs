//! The laws of the codec on concrete streams.

use h120::codec::bitio::{BitReader, BitWriter};
use h120::codec::decoder::Decoder;
use h120::codec::encoder::{Encoder, EncoderConfig, BUFFER_UNITS};
use h120::codec::tables::{read_vlc, write_code, Vlc, VlcRead};
use h120::codec::{
    interpolate_omitted_field, FieldStore, BLANKING, C_MAX, C_MIN, LINES_PER_FIELD, WIDTH, Y_MAX,
    Y_MIN,
};
use h120::source::ingest;
use h120::y4m::Frame444;

/// A frame of diagonal stripes that move with `t`.
fn stripes(t: usize) -> Frame444 {
    let (w, h) = (256, 286);
    let mut f = Frame444::new(w, h);
    for y in 0..h {
        for x in 0..w {
            let on = ((x + y + 13 * t) / 11) % 2 == 0;
            f.y[y * w + x] = if on { 205 } else { 35 };
            f.cb[y * w + x] = if on { 90 } else { 150 };
            f.cr[y * w + x] = if on { 170 } else { 100 };
        }
    }
    f
}

fn gradient() -> Frame444 {
    let (w, h) = (256, 286);
    let mut f = Frame444::new(w, h);
    for y in 0..h {
        for x in 0..w {
            f.y[y * w + x] = (40 + x / 3 + y / 7) as u8;
            f.cb[y * w + x] = 118;
            f.cr[y * w + x] = 133;
        }
    }
    f
}

fn same(a: &FieldStore, b: &FieldStore) -> bool {
    a.y == b.y && a.c == b.c && a.y_moving == b.y_moving && a.c_moving == b.c_moving
}

/// Lockstep where fields are omitted: the frame is field 1 and the field 2 that
/// the encoder interpolates with the next field 1.
#[test]
fn lockstep_with_omitted_fields() {
    let mut enc = Encoder::new(EncoderConfig { bitrate: 300_000, mono: false });
    let n = 14;
    let mut pending = Vec::new();
    let mut snapshots = Vec::new();
    for t in 0..n {
        enc.encode_frame(&stripes(t));
        pending.push(enc.has_pending_interpolation());
        snapshots.push(enc.stores().clone());
    }
    assert!(pending.iter().any(|&p| p), "fields must be omitted");
    let sent = enc.stats;
    let data = enc.finish();
    let mut dec = Decoder::new(&data);
    for t in 0..n {
        let out = dec.next_frame().expect("decoding");
        if !pending[t] {
            let fields = out.expect("frame");
            assert!(same(&fields[0], &snapshots[t][0]), "frame {t}");
            assert!(same(&fields[1], &snapshots[t][1]), "frame {t}");
        } else if t + 1 < n {
            let fields = out.expect("frame");
            assert!(same(&fields[0], &snapshots[t][0]), "frame {t}");
            if pending[t + 1] {
                assert!(same(&fields[1], &snapshots[t + 1][1]), "frame {t}");
            }
        } else {
            assert!(out.is_none());
        }
    }
    assert!(dec.next_frame().unwrap().is_none());
    // The statistics of both sides agree.
    assert_eq!(dec.stats.pcm_lines, sent.pcm_lines);
    assert_eq!(dec.stats.empty_lines, sent.empty_lines);
    assert_eq!(dec.stats.subsampled_lines, sent.subsampled_lines);
    assert_eq!(dec.stats.luma_clusters, sent.luma_clusters);
    assert_eq!(dec.stats.chroma_clusters, sent.chroma_clusters);
    assert_eq!(dec.stats.extra_elements, sent.extra_elements);
    assert_eq!(dec.stats.fields_decoded, sent.fields_coded);
}

/// Wherever the stream is cut off, decoding ends without an error, and the
/// frames well before the cut are those of the whole stream.
#[test]
fn every_cut_is_graceful() {
    let mut enc = Encoder::new(EncoderConfig { bitrate: 900_000, mono: false });
    for t in 0..3 {
        enc.encode_frame(&stripes(t));
    }
    let data = enc.finish();
    let mut whole = Vec::new();
    let mut dec = Decoder::new(&data);
    while let Some(fields) = dec.next_frame().expect("decoding") {
        whole.push((fields, dec.stats.total_bits));
    }
    let mut cut = 0;
    while cut <= data.len() {
        let mut dec = Decoder::new(&data[..cut]);
        let mut k = 0;
        while let Some(fields) = dec.next_frame().expect("a cut is no error") {
            if whole[k].1 + 48 <= 8 * cut as u64 {
                assert!(same(&fields[0], &whole[k].0[0]) && same(&fields[1], &whole[k].0[1]));
            }
            k += 1;
        }
        assert!(k <= whole.len());
        cut += 211;
    }
}

#[test]
fn monochrome_stays_neutral() {
    let mut enc = Encoder::new(EncoderConfig { bitrate: 600_000, mono: true });
    for t in 0..6 {
        enc.encode_frame(&stripes(t));
        assert_eq!(enc.stats.chroma_clusters, 0);
        for f in enc.stores() {
            assert!(f.c.iter().all(|l| l.iter().all(|&v| v == BLANKING)));
        }
    }
}

#[test]
fn every_reconstructed_sample_is_legal() {
    let mut enc = Encoder::new(EncoderConfig { bitrate: 700_000, mono: false });
    for t in 0..6 {
        enc.encode_frame(&stripes(3 * t));
        for f in enc.stores() {
            assert!(f.y.iter().all(|l| l.iter().all(|&v| (Y_MIN..=Y_MAX).contains(&v))));
            assert!(f.y.iter().all(|l| l[WIDTH - 1] == BLANKING));
            assert!(f.c.iter().all(|l| l.iter().all(|&v| (C_MIN..=C_MAX).contains(&v))));
        }
    }
}

#[test]
fn an_exact_scene_stays_exact() {
    let frame = gradient();
    let reference = ingest(&frame, false);
    let mut enc = Encoder::new(EncoderConfig { bitrate: 2_048_000, mono: false });
    for _ in 0..40 {
        enc.encode_frame(&frame);
    }
    assert_eq!(enc.stats.fields_omitted, 0);
    for _ in 0..3 {
        for f in 0..2 {
            for l in 0..LINES_PER_FIELD {
                assert_eq!(enc.stores()[f].y[l], reference[f].y[l]);
                assert_eq!(enc.stores()[f].c[l], reference[f].c[l]);
            }
        }
        let clusters = enc.stats.luma_clusters + enc.stats.chroma_clusters;
        enc.encode_frame(&frame);
        assert_eq!(enc.stats.luma_clusters + enc.stats.chroma_clusters, clusters);
    }
}

#[test]
fn the_buffer_holds_at_the_slowest_bitrate() {
    let mut enc = Encoder::new(EncoderConfig { bitrate: 100_000, mono: false });
    for t in 0..25 {
        enc.encode_frame(&stripes(t));
    }
    assert!(enc.stats.panic_lines > 0);
    assert!(enc.stats.max_occupancy <= BUFFER_UNITS);
}

#[test]
fn statistics_of_the_first_field() {
    // At the start, 27 PCM lines fill 70 % of the buffer; the rest of a grey
    // frame is empty.
    let mut frame = Frame444::new(256, 286);
    frame.y.fill(128);
    let mut enc = Encoder::new(EncoderConfig { bitrate: 2_048_000, mono: false });
    enc.encode_frame(&frame);
    assert_eq!(enc.stats.frames, 1);
    assert_eq!(enc.stats.fields_coded, 2);
    assert_eq!(enc.stats.luma_clusters, 0);
    assert_eq!(enc.stats.panic_lines, 0);
    assert_eq!(enc.stats.pcm_lines + enc.stats.empty_lines, 286);
    let sent = 2 * 48 + 284 * 20 + enc.stats.pcm_lines * 2480;
    assert_eq!(enc.bits_written(), sent);
    assert_eq!(enc.finish().len() as u64, (sent + 7) / 8);
}

#[test]
fn written_numbers_are_read_back() {
    let mut w = BitWriter::new();
    for n in 1..=32u8 {
        w.put_bits(0xA5C3_96E7, n);
    }
    assert_eq!(w.bit_len(), 528);
    let bytes = w.finish();
    let mut r = BitReader::new(&bytes);
    for n in 1..=32u32 {
        let mask = if n == 32 { u32::MAX } else { (1 << n) - 1 };
        assert_eq!(r.read_bits(n as u8), Some(0xA5C3_96E7 & mask));
    }
    assert_eq!(r.remaining(), 0);
    r.seek(0);
    assert_eq!(r.bit_pos(), 0);
    assert_eq!(r.read_bit(), Some(true));
    assert_eq!(r.peek_bits(0), Some(0));
}

#[test]
fn codes_end_where_they_end() {
    let mut w = BitWriter::new();
    write_code(&mut w, 8, true);
    let bytes = w.finish();
    let mut r = BitReader::new(&bytes);
    assert_eq!(read_vlc(&mut r, false), VlcRead::Sym(Vlc::Level { level: -141, extra: false }));
    assert_eq!(r.bit_pos(), 10);
    r.seek(0);
    assert_eq!(read_vlc(&mut r, true), VlcRead::Sym(Vlc::Level { level: -50, extra: true }));
}

/// An omitted field 2: moving elements take the mean of their four neighbours,
/// chrominance that of the two lines below, the others stay.
#[test]
fn omitted_field_is_interpolated() {
    let mut b1 = FieldStore::new();
    let mut a1 = FieldStore::new();
    b1.y[5][7] = 100;
    b1.y[6][7] = 103;
    a1.y[5][7] = 50;
    a1.y[6][7] = 60;
    a1.y_moving[6][7] = true;
    b1.c[6][9] = 30;
    a1.c[6][9] = 41;
    b1.c_moving[5][9] = true;
    let mut omitted = FieldStore::new();
    omitted.y[5][8] = 77;
    interpolate_omitted_field(&mut omitted, 1, &b1, &a1);
    assert_eq!(omitted.y[5][7], ((100 + 103) / 2 + (50 + 60) / 2) / 2);
    assert_eq!(omitted.y[5][8], 77);
    assert_eq!(omitted.c[5][9], (30 + 41) / 2);
    assert!(omitted.y_moving[5][7] && omitted.y_moving[6][7] && !omitted.y_moving[4][7]);
    assert!(omitted.c_moving[5][9] && omitted.c_moving[4][9] && !omitted.c_moving[6][9]);
}

/// Cut off behind a frame (the start code of the next one begins with zeros,
/// like padding), the stream decodes to the frames before.
#[test]
fn a_cut_between_frames_is_clean() {
    let mut enc = Encoder::new(EncoderConfig { bitrate: 2_048_000, mono: false });
    let mut ends = Vec::new();
    let mut snapshots = Vec::new();
    for _ in 0..4 {
        enc.encode_frame(&gradient());
        assert!(!enc.has_pending_interpolation());
        ends.push((enc.bits_written() as usize + 7) / 8);
        snapshots.push(enc.stores().clone());
    }
    let data = enc.finish();
    for j in 0..4 {
        let mut dec = Decoder::new(&data[..ends[j]]);
        for k in 0..=j {
            let fields = dec.next_frame().unwrap().unwrap();
            assert!(same(&fields[0], &snapshots[k][0]) && same(&fields[1], &snapshots[k][1]));
        }
        assert!(dec.next_frame().unwrap().is_none());
    }
}

/// In steady state, one line of each field is refreshed, in rotation.
#[test]
fn steady_refresh() {
    let frame = gradient();
    let mut enc = Encoder::new(EncoderConfig { bitrate: 2_048_000, mono: false });
    for _ in 0..40 {
        enc.encode_frame(&frame);
    }
    for _ in 0..5 {
        let before = enc.stats.pcm_lines;
        enc.encode_frame(&frame);
        assert_eq!(enc.stats.pcm_lines, before + 2);
    }
    assert_eq!(enc.stats.frames, 45);
}

/// A grey frame, then noise at the top: PCM lines are scheduled below it.
fn noise_at_the_top(t: u32) -> Frame444 {
    let (w, h) = (256, 286);
    let mut f = Frame444::new(w, h);
    f.y.fill(128);
    if t > 0 {
        let mut s = 12345 + t;
        for i in 0..w * 60 {
            s = s.wrapping_mul(1_664_525).wrapping_add(1_013_904_223);
            f.y[i] = if (s >> 30) & 1 == 1 { 230 } else { 20 };
            f.cb[i] = if (s >> 29) & 1 == 1 { 230 } else { 20 };
            f.cr[i] = if (s >> 28) & 1 == 1 { 230 } else { 20 };
        }
    }
    f
}

/// PCM lines behind heavy motion are put off rather than overflow the buffer, and
/// come later: the stream stays in lockstep.
#[test]
fn pcm_lines_wait_for_room() {
    for bitrate in [100_000, 131_000, 150_000, 600_000, 2_048_000] {
        let mut enc = Encoder::new(EncoderConfig { bitrate, mono: false });
        let mut last = None;
        for t in 0..8 {
            enc.encode_frame(&noise_at_the_top(t));
            if !enc.has_pending_interpolation() {
                last = Some((t, enc.stores().clone()));
            }
        }
        assert!(enc.stats.panic_lines > 0);
        assert!(enc.stats.max_occupancy <= BUFFER_UNITS, "bitrate {bitrate}");
        let (t, stores) = last.expect("a frame without omission");
        let data = enc.finish();
        let mut dec = Decoder::new(&data);
        for _ in 0..t {
            dec.next_frame().unwrap().unwrap();
        }
        let fields = dec.next_frame().unwrap().unwrap();
        assert!(same(&fields[0], &stores[0]) && same(&fields[1], &stores[1]));
    }
}

/// Behind the end comes the end, with the same fields and the same count.
#[test]
fn the_end_stays_the_end() {
    let mut enc = Encoder::new(EncoderConfig { bitrate: 900_000, mono: false });
    for t in 0..3 {
        enc.encode_frame(&stripes(t));
    }
    let data = enc.finish();
    for cut in [0, 5, data.len() / 2, data.len()] {
        let mut dec = Decoder::new(&data[..cut]);
        let mut frames = 0;
        while let Some(fields) = dec.next_frame().unwrap() {
            frames += 1;
            assert_eq!(dec.stats.frames, frames);
            for f in &fields {
                assert_eq!(f.y.len(), LINES_PER_FIELD);
                assert!(f.y.iter().all(|l| l[WIDTH - 1] == BLANKING));
            }
        }
        let store = dec.store.clone();
        for _ in 0..3 {
            assert!(dec.next_frame().unwrap().is_none());
            assert_eq!(dec.stats.frames, frames);
            assert!(same(&dec.store[0], &store[0]) && same(&dec.store[1], &store[1]));
        }
    }
}

/// While a static scene builds up, every field leaves fewer lines to refresh; it is
/// exact once none is left.
#[test]
fn a_static_scene_builds_up() {
    let frame = gradient();
    let mut enc = Encoder::new(EncoderConfig { bitrate: 1_600_000, mono: false });
    let mut sent = 0;
    let mut n = 0;
    while enc.stats.pcm_lines < 286 {
        enc.encode_frame(&frame);
        assert!(enc.stats.pcm_lines > sent);
        sent = enc.stats.pcm_lines;
        n += 1;
        assert!(n < 40);
    }
    assert_eq!(enc.stats.fields_omitted, 0);
    let reference = ingest(&frame, false);
    for f in 0..2 {
        assert!(enc.stores()[f].y == reference[f].y && enc.stores()[f].c == reference[f].c);
    }
}

/// Whatever was coded before, with omitted fields, a static scene becomes exact when
/// the refresh has come by every line.
#[test]
fn a_scene_becomes_exact_after_motion() {
    let mut enc = Encoder::new(EncoderConfig { bitrate: 2_048_000, mono: false });
    for t in 0..12 {
        enc.encode_frame(&stripes(t));
    }
    assert!(enc.stats.fields_omitted > 0);
    let frame = gradient();
    for _ in 0..200 {
        enc.encode_frame(&frame);
    }
    let reference = ingest(&frame, false);
    for f in 0..2 {
        assert!(enc.stores()[f].y == reference[f].y && enc.stores()[f].c == reference[f].c);
    }
}

/// In steady state, 143 frames refresh every line once, whatever they show, and the
/// counts of fields add up.
#[test]
fn steady_refresh_comes_by_every_line() {
    let mut enc = Encoder::new(EncoderConfig { bitrate: 2_048_000, mono: false });
    let frame = gradient();
    for _ in 0..40 {
        enc.encode_frame(&frame);
    }
    let before = enc.stats;
    // A change below the threshold of the motion detector: only the refresh sends it.
    let mut next = gradient();
    for v in next.y.iter_mut() {
        *v += 3;
    }
    for _ in 0..LINES_PER_FIELD {
        enc.encode_frame(&next);
    }
    assert_eq!(enc.stats.luma_clusters, before.luma_clusters);
    assert_eq!(enc.stats.pcm_lines, before.pcm_lines + 286);
    let reference = ingest(&next, false);
    for f in 0..2 {
        assert!(enc.stores()[f].y == reference[f].y && enc.stores()[f].c == reference[f].c);
    }
    assert_eq!(enc.stats.fields_coded + enc.stats.fields_omitted, 2 * enc.stats.frames);
}
