use h120::codec::{FieldStore, BLANKING, LINES_PER_FIELD, WIDTH};
use h120::source::{egress, ingest, upscale};
use h120::y4m::Frame444;

#[test]
fn ingest_egress_roundtrip_uniform() {
    let mut frame = Frame444::new(WIDTH, 286);
    frame.y.fill(100);
    frame.cb.fill(90);
    frame.cr.fill(160);
    let fields = ingest(&frame, false);
    assert_eq!(fields[0].y[0][0], 100);
    assert_eq!(fields[0].y[0][WIDTH - 1], BLANKING);
    // Field 1 line 0 carries Cb, line 1 carries Cr.
    assert_eq!(fields[0].c[0][10], 90);
    assert_eq!(fields[0].c[1][10], 160);
    // Field 2 line 0 carries Cr.
    assert_eq!(fields[1].c[0][10], 160);

    let mut store = [FieldStore::new(), FieldStore::new()];
    for f in 0..2 {
        for i in 0..LINES_PER_FIELD {
            store[f].y[i] = fields[f].y[i];
            store[f].c[i] = fields[f].c[i];
        }
    }
    let out = egress(&store);
    assert_eq!(out.y[5 * WIDTH + 5], 100);
    assert!(out.cb[10 * WIDTH + 128].abs_diff(90) <= 1);
    assert!(out.cr[11 * WIDTH + 128].abs_diff(160) <= 1);
}

#[test]
fn upscaling_repeats_samples() {
    let mut frame = Frame444::new(2, 1);
    frame.y = vec![20, 30];
    frame.cb = vec![40, 50];
    frame.cr = vec![60, 70];
    let big = upscale(&frame, 2);
    assert_eq!((big.w, big.h), (4, 2));
    assert_eq!(big.y, vec![20, 20, 30, 30, 20, 20, 30, 30]);
    assert_eq!(big.cr, vec![60, 60, 70, 70, 60, 60, 70, 70]);
    let same = upscale(&frame, 1);
    assert_eq!(same.y, frame.y);
}

#[test]
fn padding_lines_are_black() {
    let out = egress(&[FieldStore::new(), FieldStore::new()]);
    assert_eq!((out.w, out.h), (256, 288));
    assert_eq!(out.y[285 * WIDTH], BLANKING);
    assert_eq!(out.y[286 * WIDTH], 16);
    assert_eq!(out.cb[287 * WIDTH], BLANKING);
}

#[test]
fn ingested_samples_are_held_in_range() {
    let mut frame = Frame444::new(WIDTH, 286);
    frame.y.fill(255);
    frame.cb.fill(0);
    frame.cr.fill(255);
    let fields = ingest(&frame, false);
    assert_eq!(fields[0].y[3][5], 239);
    assert_eq!(fields[0].c[0][5], 17);
    assert_eq!(fields[0].c[1][5], 239);
    let mono = ingest(&frame, true);
    assert_eq!(mono[0].c[0][5], 128);
}

#[test]
fn upscaling_multiplies() {
    let mut frame = Frame444::new(3, 2);
    frame.y = vec![1, 2, 3, 4, 5, 6];
    frame.cb = vec![11, 12, 13, 14, 15, 16];
    let twice = upscale(&upscale(&frame, 2), 3);
    let once = upscale(&frame, 6);
    assert_eq!((twice.w, twice.h), (18, 12));
    assert_eq!(twice.y, once.y);
    assert_eq!(twice.cb, once.cb);
    assert_eq!(twice.cr, once.cr);
}
