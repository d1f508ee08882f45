use h120::scale::resize_plane;

#[test]
fn identity() {
    let src: Vec<u8> = (0..64).collect();
    assert_eq!(resize_plane(&src, 8, 8, 8, 8), src);
}

#[test]
fn constant_plane_stays_constant() {
    let src = vec![100u8; 32 * 20];
    let dst = resize_plane(&src, 32, 20, 256, 286);
    assert!(dst.iter().all(|&v| (99..=101).contains(&v)));
    let dst2 = resize_plane(&src, 32, 20, 13, 7);
    assert!(dst2.iter().all(|&v| (99..=101).contains(&v)));
}

#[test]
fn gradient_monotone() {
    let mut src = vec![0u8; 256];
    for x in 0..256 {
        src[x] = x as u8;
    }
    let dst = resize_plane(&src, 256, 1, 52, 1);
    for w in dst.windows(2) {
        assert!(w[1] >= w[0]);
    }
    assert!(dst[0] < 10 && dst[51] > 240);
}

#[test]
fn exact_bilinear_values() {
    assert_eq!(resize_plane(&[0, 100], 2, 1, 4, 1), vec![0, 25, 75, 100]);
    assert_eq!(resize_plane(&[0, 100, 200, 40], 2, 2, 1, 1), vec![85]);
    // A column: the same weights downwards.
    assert_eq!(resize_plane(&[0, 100], 1, 2, 1, 4), vec![0, 25, 75, 100]);
}
