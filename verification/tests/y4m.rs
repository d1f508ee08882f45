use h120::y4m::{
    can_read_header, end_of_line, frame_size, read_header, Frame444, Subsampling, Y4mError, Y4mHeader, Y4mReader,
    Y4mWriter,
};

#[test]
fn roundtrip_444() {
    let mut f = Frame444::new(4, 2);
    for (i, v) in f.y.iter_mut().enumerate() {
        *v = i as u8 + 20;
    }
    let mut w = Y4mWriter::new(25, 1, (1, 1));
    w.write_frame(&f);
    w.write_frame(&f);
    let out = w.flush();
    let mut r = Y4mReader::new(&out).unwrap();
    assert_eq!((r.width, r.height), (4, 2));
    assert_eq!((r.fps_num, r.fps_den), (25, 1));
    let g = r.next_frame().unwrap().unwrap();
    assert_eq!(g.y, f.y);
    assert_eq!(g.cb, f.cb);
    assert!(r.next_frame().unwrap().is_some());
    assert!(r.next_frame().unwrap().is_none());
}

fn error_of(data: &[u8]) -> Y4mError {
    assert!(can_read_header(data));
    match Y4mReader::new(data) {
        Ok(_) => panic!("no error"),
        Err(e) => e,
    }
}

#[test]
fn header_errors() {
    assert_eq!(error_of(b""), Y4mError::NotY4m);
    assert_eq!(error_of(b"YUV4MPEG W4 H2\n"), Y4mError::NotY4m);
    assert_eq!(error_of(b"YUV4MPEG2 W4x H2\n"), Y4mError::Width);
    assert_eq!(error_of(b"YUV4MPEG2 W99999999999999999999 H2\n"), Y4mError::Width);
    assert_eq!(error_of(b"YUV4MPEG2 W4 H-2\n"), Y4mError::Height);
    assert_eq!(error_of(b"YUV4MPEG2 W4 H\n"), Y4mError::Height);
    assert_eq!(error_of(b"YUV4MPEG2 W4 H2 F25\n"), Y4mError::FrameRate);
    assert_eq!(error_of(b"YUV4MPEG2 W4 H2 F25:x\n"), Y4mError::FrameRateValue);
    assert_eq!(error_of(b"YUV4MPEG2 W4 H2 F4294967296:1\n"), Y4mError::FrameRateValue);
    assert_eq!(
        error_of(b"YUV4MPEG2 W4 H2 C411\n"),
        Y4mError::UnsupportedSubsampling(b"411".to_vec())
    );
    assert_eq!(error_of(b"YUV4MPEG2 W4\n"), Y4mError::MissingDimensions);
    assert_eq!(error_of(b"YUV4MPEG2 W0 H2\n"), Y4mError::MissingDimensions);
}

#[test]
fn header_parameters() {
    let header = read_header(b"YUV4MPEG2 W+16 H9 F30000:1001 Ip A1:1 C422 XYSCSS=422\n").unwrap();
    assert_eq!(
        header,
        Y4mHeader { width: 16, height: 9, fps_num: 30000, fps_den: 1001, sub: Subsampling::C422 }
    );
    let header = read_header("YUV4MPEG2\u{a0}W3\u{2003}H2\tCmono".as_bytes()).unwrap();
    assert_eq!(
        header,
        Y4mHeader { width: 3, height: 2, fps_num: 25, fps_den: 1, sub: Subsampling::Mono }
    );
}

#[test]
fn tags_are_ascii() {
    assert!(!can_read_header("YUV4MPEG2 é\n".as_bytes()));
    assert!(!can_read_header(b"YUV4MPEG2 W4 H2 \xFF\n"));
    // Behind an error, and without the signature, tags are not read.
    assert!(can_read_header(b"YUV4MPEG2 W4x \xFF\n"));
    assert!(can_read_header(b"RIFF \xFF\n"));
    // Values may be anything.
    assert!(can_read_header("YUV4MPEG2 W4 H2 Xé\n".as_bytes()));
}

#[test]
fn frame_errors() {
    let mut r = Y4mReader::new(b"YUV4MPEG2 W2 H1 Cmono\nFRAM\nab").unwrap();
    assert!(matches!(r.next_frame(), Err(Y4mError::FrameMarker)));
    let mut r = Y4mReader::new(b"YUV4MPEG2 W2 H1 Cmono\nFRAME\na").unwrap();
    assert!(matches!(r.next_frame(), Err(Y4mError::Planes)));
}

#[test]
fn subsampled_planes_are_replicated() {
    // 3 × 3, 4:2:0: chrominance planes of 2 × 2.
    let mut data = b"YUV4MPEG2 W3 H3 C420jpeg\nFRAME Ip\n".to_vec();
    data.extend(1..=9u8);
    data.extend([10, 11, 12, 13]);
    data.extend([20, 21, 22, 23]);
    let mut r = Y4mReader::new(&data).unwrap();
    let f = r.next_frame().unwrap().unwrap();
    assert_eq!(f.y, (1..=9).collect::<Vec<u8>>());
    assert_eq!(f.cb, vec![10, 10, 11, 10, 10, 11, 12, 12, 13]);
    assert_eq!(f.cr, vec![20, 20, 21, 20, 20, 21, 22, 22, 23]);
    assert!(r.next_frame().unwrap().is_none());

    let mut r = Y4mReader::new(b"YUV4MPEG2 W2 H1 Cmono\nFRAME\nab").unwrap();
    let f = r.next_frame().unwrap().unwrap();
    assert_eq!((f.y, f.cb, f.cr), (b"ab".to_vec(), vec![128, 128], vec![128, 128]));

    let mut r = Y4mReader::new(b"YUV4MPEG2 W2 H2 C422\nFRAME\nabcdpqrs").unwrap();
    let f = r.next_frame().unwrap().unwrap();
    assert_eq!(f.cb, b"ppqq".to_vec());
    assert_eq!(f.cr, b"rrss".to_vec());
}

#[test]
fn written_text() {
    let mut f = Frame444::new(2, 1);
    f.y = b"ab".to_vec();
    f.cb = b"cd".to_vec();
    f.cr = b"ef".to_vec();
    let mut w = Y4mWriter::new(25, 1, (143, 96));
    w.write_frame(&f);
    assert_eq!(
        w.flush(),
        b"YUV4MPEG2 W2 H1 F25:1 Ip A143:96 C444\nFRAME\nabcdef".to_vec()
    );
    w.write_frame(&f);
    assert_eq!(w.flush(), b"FRAME\nabcdef".to_vec());
}

#[test]
fn frame_sizes() {
    let header =
        |width, height, sub| Y4mHeader { width, height, fps_num: 25, fps_den: 1, sub };
    assert_eq!(frame_size(&header(256, 286, Subsampling::C444)), Some(3 * 256 * 286));
    assert_eq!(frame_size(&header(5, 3, Subsampling::C420)), Some(15 + 2 * 3 * 2));
    assert_eq!(frame_size(&header(5, 3, Subsampling::C422)), Some(15 + 2 * 3 * 3));
    assert_eq!(frame_size(&header(5, 3, Subsampling::Mono)), Some(15));
    assert_eq!(frame_size(&header(usize::MAX, 2, Subsampling::Mono)), None);
}

#[test]
fn lines_end_behind_their_feed() {
    assert_eq!(end_of_line(b"ab\ncd", 0), 3);
    assert_eq!(end_of_line(b"ab\ncd", 3), 5);
    assert_eq!(end_of_line(b"", 0), 0);
}
