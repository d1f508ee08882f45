use h120::codec::clusters::{adjust_parity, detect_clusters, merge_close};
use h120::codec::WIDTH;

#[test]
fn detect_simple_cluster() {
    let mut input = [50u8; WIDTH];
    let store = [50u8; WIDTH];
    for e in 100..120 {
        input[e] = 90;
    }
    let c = detect_clusters(&input, &store, 5, WIDTH - 2, WIDTH - 2);
    assert_eq!(c, vec![(100, 119)]);
}

#[test]
fn detect_merges_close_segments() {
    let mut input = [50u8; WIDTH];
    let store = [50u8; WIDTH];
    for e in 10..15 {
        input[e] = 90;
    }
    for e in 18..25 {
        input[e] = 90;
    }
    for e in 60..70 {
        input[e] = 90;
    }
    let c = detect_clusters(&input, &store, 5, WIDTH - 2, WIDTH - 2);
    assert_eq!(c, vec![(10, 24), (60, 69)]);
}

#[test]
fn parity_adjustment_extends() {
    // Even line: even elements transmitted.
    let mut c = vec![(11, 21)];
    adjust_parity(&mut c, 0, WIDTH - 2);
    assert_eq!(c, vec![(10, 22)]);
    // Line edge: shortening.
    let mut c = vec![(11, 253)];
    adjust_parity(&mut c, 1, 254);
    assert_eq!(c, vec![(11, 253)]);
    let mut c = vec![(10, 254)];
    adjust_parity(&mut c, 1, 254);
    assert_eq!(c, vec![(9, 253)]);
}

#[test]
fn close_clusters_merge() {
    let mut c = vec![(2, 5), (9, 12), (20, 21)];
    merge_close(&mut c);
    assert_eq!(c, vec![(2, 12), (20, 21)]);
    let mut c = vec![(2, 5), (10, 12)];
    merge_close(&mut c);
    assert_eq!(c, vec![(2, 5), (10, 12)]);
}

#[test]
fn no_cluster_starts_behind_the_last_start() {
    let mut input = [50u8; 52];
    let store = [50u8; 52];
    input[51] = 90;
    assert_eq!(detect_clusters(&input, &store, 5, 51, 50), vec![(50, 51)]);
    input[51] = 55;
    assert_eq!(detect_clusters(&input, &store, 5, 51, 50), vec![]);
}

/// Alignment keeps what the clusters held, but for the other parity at the edge,
/// and changes nothing the second time.
#[test]
fn alignment_keeps_elements() {
    let clusters = vec![(0, 6), (13, 30), (40, 41), (250, 254)];
    for parity in [0, 1] {
        let mut c = clusters.clone();
        adjust_parity(&mut c, parity, 254);
        for &(s, e) in &clusters {
            for x in s..=e {
                if x % 2 == parity || (0 < x && x < 254) {
                    assert!(c.iter().any(|&(a, b)| a <= x && x <= b), "{x}");
                }
            }
        }
        let mut again = c.clone();
        adjust_parity(&mut again, parity, 254);
        assert_eq!(again, c);
    }
}
