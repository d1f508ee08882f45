//! The rules around the codec: command line, player, input files.

use h120::cli::{accept_bitrate, at_codec_rate, limit_reached, split_bitrate, BitrateOutOfRange};
use h120::ffmpeg::is_y4m;
use h120::player::{plays_again, to_rgb};
use h120::y4m::Frame444;

fn number(text: &str) -> (&str, u64) {
    let (start, end, mult) = split_bitrate(text.as_bytes());
    (&text[start..end], mult)
}

#[test]
fn bitrate_suffixes() {
    assert_eq!(number("1600k"), ("1600", 1_000));
    assert_eq!(number("1600K"), ("1600", 1_000));
    assert_eq!(number("2m"), ("2", 1_000_000));
    assert_eq!(number("  1.5M\u{3000}"), ("1.5", 1_000_000));
    assert_eq!(number("900000"), ("900000", 1));
    assert_eq!(number("1 k"), ("1 ", 1_000));
    assert_eq!(number(" \t "), ("", 1));
    assert_eq!(number("k"), ("", 1_000));
}

#[test]
fn bitrate_range() {
    assert_eq!(accept_bitrate(100_000), Ok(100_000));
    assert_eq!(accept_bitrate(2_048_000), Ok(2_048_000));
    assert_eq!(accept_bitrate(99_999), Err(BitrateOutOfRange));
    assert_eq!(accept_bitrate(2_048_001), Err(BitrateOutOfRange));
}

#[test]
fn frame_limits() {
    assert!(!limit_reached(10, None));
    assert!(!limit_reached(9, Some(10)));
    assert!(limit_reached(10, Some(10)));
    assert!(limit_reached(0, Some(0)));
    assert!(at_codec_rate(25, 1));
    assert!(!at_codec_rate(50, 2));
}

#[test]
fn y4m_files() {
    assert!(is_y4m(Some(b"y4m"), None));
    assert!(is_y4m(Some(b"Y4M"), None));
    assert!(!is_y4m(Some(b"mp4"), None));
    assert!(is_y4m(Some(b"bin"), Some(b"YUV4MPEG2 W4 H2\n")));
    assert!(!is_y4m(None, Some(b"YUV4MPEG")));
    assert!(!is_y4m(None, None));
}

#[test]
fn rgb_values() {
    let mut f = Frame444::new(4, 1);
    f.y = vec![16, 235, 81, 100];
    f.cb = vec![128, 128, 90, 200];
    f.cr = vec![128, 128, 240, 60];
    let rgb = to_rgb(&f);
    assert_eq!(&rgb[..3], &[0, 0, 0]);
    assert_eq!(&rgb[3..6], &[255, 255, 255]);
    assert_eq!(&rgb[6..9], &[255, 0, 0]);
    // y = 84 · 298 = 25032, cb = 72, cr = −68
    assert_eq!(&rgb[9..12], &[0, 125, 243]);
}

#[test]
fn playback_loops_over_frames_only() {
    assert!(plays_again(3, true));
    assert!(!plays_again(0, true));
    assert!(!plays_again(3, false));
}
