//! Motion detection on a line: which elements are transmitted, and in which
//! clusters (implementation choice, no impact on interoperability).

use vstd::prelude::*;
use crate::codec::MIN_CLUSTER_GAP;

verus! {

/// Moving elements at most this far apart fall into one cluster: merging costs
/// less than addressing.
pub const MERGE_GAP: usize = 6;

/// A cluster as (first element, last element).
pub open spec fn spans(clusters: Seq<(usize, usize)>) -> Seq<(int, int)> {
    Seq::new(clusters.len(), |i: int| (clusters[i].0 as int, clusters[i].1 as int))
}

/// Element `e` moves: it differs from the store by more than the threshold.
pub open spec fn moves(input: Seq<u8>, store: Seq<u8>, thr: int, e: int) -> bool {
    input[e] - store[e] > thr || store[e] - input[e] > thr
}

/// The clusters of the moving elements among the first `n`: a moving element
/// extends the last cluster if it is near enough to its end, and starts a new
/// one otherwise. No cluster starts behind `max_start`.
pub open spec fn segments(input: Seq<u8>, store: Seq<u8>, thr: int, max_start: int, n: nat) -> Seq<
    (int, int),
>
    decreases n,
{
    if n == 0 {
        Seq::empty()
    } else {
        let before = segments(input, store, thr, max_start, (n - 1) as nat);
        let e = n - 1;
        if !moves(input, store, thr, e) {
            before
        } else if before.len() > 0 && e - before.last().1 <= MERGE_GAP {
            before.drop_last().push((before.last().0, e))
        } else {
            before.push((
                if e <= max_start {
                    e
                } else {
                    max_start
                },
                e,
            ))
        }
    }
}

/// The clusters with those merged that are less than the minimum gap apart.
pub open spec fn merged(clusters: Seq<(int, int)>) -> Seq<(int, int)>
    decreases clusters.len(),
{
    if clusters.len() == 0 {
        Seq::empty()
    } else {
        let before = merged(clusters.drop_last());
        let (s, e) = clusters.last();
        if before.len() > 0 && s <= before.last().1 + MIN_CLUSTER_GAP {
            before.drop_last().push((
                before.last().0,
                if e > before.last().1 {
                    e
                } else {
                    before.last().1
                },
            ))
        } else {
            before.push((s, e))
        }
    }
}

/// The clusters of a line: its moving elements up to `max_e`.
pub open spec fn detected(
    input: Seq<u8>,
    store: Seq<u8>,
    thr: int,
    max_e: int,
    max_start: int,
) -> Seq<(int, int)> {
    merged(segments(input, store, thr, max_start, (max_e + 1) as nat))
}

/// A cluster with start and end of the given parity: extended by one element
/// where needed, shortened at the edges of the line.
pub open spec fn aligned_span(span: (int, int), parity: int, max_e: int) -> (int, int) {
    let s = if span.0 % 2 == parity {
        span.0
    } else if span.0 > 0 {
        span.0 - 1
    } else {
        span.0 + 1
    };
    let e = if span.1 % 2 == parity {
        span.1
    } else if span.1 + 1 <= max_e {
        span.1 + 1
    } else {
        span.1 - 1
    };
    (
        s,
        if e < s {
            s
        } else {
            e
        },
    )
}

/// The clusters aligned to a parity, merged where that brought them too close.
pub open spec fn aligned(clusters: Seq<(int, int)>, parity: int, max_e: int) -> Seq<(int, int)> {
    merged(Seq::new(clusters.len(), |i: int| aligned_span(clusters[i], parity, max_e)))
}

/// Every cluster lies within the line and starts where clusters may start.
pub open spec fn on_line(clusters: Seq<(int, int)>, max_e: int, max_start: int) -> bool {
    forall|i: int|
        0 <= i < clusters.len() ==> 0 <= (#[trigger] clusters[i]).0 <= clusters[i].1 <= max_e
            && clusters[i].0 <= max_start
}

/// Every cluster starts and ends at an element of the parity.
pub open spec fn of_parity(clusters: Seq<(int, int)>, parity: int) -> bool {
    forall|i: int|
        0 <= i < clusters.len() ==> (#[trigger] clusters[i]).0 % 2 == parity && clusters[i].1 % 2
            == parity
}

/// The minimum gap lies between the end of a cluster and the start of the next.
pub open spec fn apart(clusters: Seq<(int, int)>) -> bool {
    forall|i: int, j: int|
        0 <= i && j == i + 1 && j < clusters.len() ==> (#[trigger] clusters[i]).1 + MIN_CLUSTER_GAP
            < (#[trigger] clusters[j]).0
}

proof fn lemma_segments_on_line(
    input: Seq<u8>,
    store: Seq<u8>,
    thr: int,
    max_e: int,
    max_start: int,
    n: nat,
)
    requires
        0 <= max_start,
        n <= max_e + 1,
    ensures
        on_line(segments(input, store, thr, max_start, n), max_e, max_start),
        segments(input, store, thr, max_start, n).len() > 0 ==> segments(
            input,
            store,
            thr,
            max_start,
            n,
        ).last().1 < n,
    decreases n,
{
    if n > 0 {
        lemma_segments_on_line(input, store, thr, max_e, max_start, (n - 1) as nat);
    }
}

/// Merging keeps clusters on the line and of their parity, and sets them apart.
pub proof fn lemma_merged(clusters: Seq<(int, int)>, max_e: int, max_start: int, parity: int)
    ensures
        apart(merged(clusters)),
        on_line(clusters, max_e, max_start) ==> on_line(merged(clusters), max_e, max_start),
        of_parity(clusters, parity) ==> of_parity(merged(clusters), parity),
        clusters.len() == 0 <==> merged(clusters).len() == 0,
        merged(clusters).len() <= clusters.len(),
    decreases clusters.len(),
{
    if clusters.len() > 0 {
        let head = clusters.drop_last();
        lemma_merged(head, max_e, max_start, parity);
        assert(forall|i: int| 0 <= i < head.len() ==> head[i] == clusters[i]);
        let before = merged(head);
        let after = merged(clusters);
        let last = clusters.len() - 1;
        assert(clusters[last] == clusters.last());
        if on_line(clusters, max_e, max_start) {
            assert(on_line(head, max_e, max_start));
            assert forall|i: int| 0 <= i < after.len() implies 0 <= (#[trigger] after[i]).0
                <= after[i].1 <= max_e && after[i].0 <= max_start by {
                if i < before.len() {
                    let b = before[i];
                }
            }
        }
        if of_parity(clusters, parity) {
            assert(of_parity(head, parity));
            assert forall|i: int| 0 <= i < after.len() implies (#[trigger] after[i]).0 % 2 == parity
                && after[i].1 % 2 == parity by {
                if i < before.len() {
                    let b = before[i];
                }
            }
        }
        assert forall|i: int, j: int| 0 <= i && j == i + 1 && j < after.len() implies (
        #[trigger] after[i]).1 + MIN_CLUSTER_GAP < (#[trigger] after[j]).0 by {
            if j < before.len() {
                assert(before[i].1 + MIN_CLUSTER_GAP < before[j].0);
            }
        }
    }
}

/// Detected clusters lie on the line and apart from each other.
pub proof fn lemma_detected(
    input: Seq<u8>,
    store: Seq<u8>,
    thr: int,
    max_e: int,
    max_start: int,
)
    requires
        0 <= max_start,
        0 <= max_e,
    ensures
        on_line(detected(input, store, thr, max_e, max_start), max_e, max_start),
        apart(detected(input, store, thr, max_e, max_start)),
{
    lemma_segments_on_line(input, store, thr, max_e, max_start, (max_e + 1) as nat);
    lemma_merged(segments(input, store, thr, max_start, (max_e + 1) as nat), max_e, max_start, 0);
}

/// Aligned clusters lie on the line and apart from each other, and are of the
/// parity.
pub proof fn lemma_aligned(clusters: Seq<(int, int)>, parity: int, max_e: int, max_start: int)
    requires
        on_line(clusters, max_e, max_start),
        0 <= parity < 2,
        1 <= max_start < max_e + 1,
        1 <= max_e,
    ensures
        on_line(aligned(clusters, parity, max_e), max_e, max_start),
        apart(aligned(clusters, parity, max_e)),
        of_parity(aligned(clusters, parity, max_e), parity),
{
    let moved = Seq::new(clusters.len(), |i: int| aligned_span(clusters[i], parity, max_e));
    assert forall|i: int| 0 <= i < moved.len() implies 0 <= (#[trigger] moved[i]).0 <= moved[i].1
        <= max_e && moved[i].0 <= max_start && moved[i].0 % 2 == parity && moved[i].1 % 2
        == parity by {
        let c = clusters[i];
    }
    lemma_merged(moved, max_e, max_start, parity);
}

/// Clusters in the order of their starts, all of them before element `n`.
spec fn in_order(clusters: Seq<(int, int)>, max_start: int, n: int) -> bool {
    &&& forall|i: int|
        0 <= i < clusters.len() ==> (#[trigger] clusters[i]).0 <= clusters[i].1 < n && clusters[i].0
            <= max_start
    &&& forall|a: int, b: int|
        0 <= a <= b < clusters.len() ==> (#[trigger] clusters[a]).0 <= (#[trigger] clusters[b]).0
}

proof fn lemma_segments_in_order(input: Seq<u8>, store: Seq<u8>, thr: int, max_start: int, n: nat)
    ensures
        in_order(segments(input, store, thr, max_start, n), max_start, n as int),
    decreases n,
{
    if n > 0 {
        lemma_segments_in_order(input, store, thr, max_start, (n - 1) as nat);
        let before = segments(input, store, thr, max_start, (n - 1) as nat);
        let after = segments(input, store, thr, max_start, n);
        assert forall|i: int| 0 <= i < after.len() implies (#[trigger] after[i]).0 <= after[i].1 < n
            && after[i].0 <= max_start by {
            if i < before.len() {
                assert(before[i].0 <= before[i].1 < n - 1 && before[i].0 <= max_start);
            }
        }
        assert forall|a: int, b: int| 0 <= a <= b < after.len() implies (#[trigger] after[a]).0 <= (
        #[trigger] after[b]).0 by {
            if a < before.len() {
                assert(before[a].0 <= before[a].1 < n - 1 && before[a].0 <= max_start);
                if b < before.len() {
                    assert(before[a].0 <= before[b].0);
                }
            }
        }
    }
}

/// Element `e` lies in one of the clusters.
pub open spec fn covers(clusters: Seq<(int, int)>, e: int) -> bool {
    exists|i: int| 0 <= i < clusters.len() && (#[trigger] clusters[i]).0 <= e <= clusters[i].1
}

/// Every moving element lies in a segment.
proof fn lemma_segments_cover(
    input: Seq<u8>,
    store: Seq<u8>,
    thr: int,
    max_start: int,
    n: nat,
    e: int,
)
    requires
        0 <= e < n,
        moves(input, store, thr, e),
    ensures
        covers(segments(input, store, thr, max_start, n), e),
    decreases n,
{
    let after = segments(input, store, thr, max_start, n);
    let before = segments(input, store, thr, max_start, (n - 1) as nat);
    lemma_segments_in_order(input, store, thr, max_start, (n - 1) as nat);
    if e == n - 1 {
        let i = after.len() - 1;
        if before.len() > 0 {
            assert(before[before.len() - 1].0 <= before[before.len() - 1].1);
        }
        assert(after[i].0 <= e <= after[i].1);
    } else {
        lemma_segments_cover(input, store, thr, max_start, (n - 1) as nat, e);
        let i = choose|i: int|
            0 <= i < before.len() && (#[trigger] before[i]).0 <= e <= before[i].1;
        assert(after[i].0 <= e <= after[i].1);
    }
}

/// What a cluster holds, a merged cluster holds.
proof fn lemma_merged_cover(clusters: Seq<(int, int)>, i: int, e: int)
    requires
        0 <= i < clusters.len(),
        clusters[i].0 <= e <= clusters[i].1,
        forall|a: int, b: int|
            0 <= a <= b < clusters.len() ==> (#[trigger] clusters[a]).0 <= (#[trigger] clusters[b]).0,
    ensures
        covers(merged(clusters), e),
        merged(clusters).last().0 <= clusters.last().0,
    decreases clusters.len(),
{
    let head = clusters.drop_last();
    let before = merged(head);
    let after = merged(clusters);
    let last = clusters.len() - 1;
    assert(forall|k: int| 0 <= k < head.len() ==> head[k] == clusters[k]);
    if head.len() > 0 {
        assert forall|a: int, b: int| 0 <= a <= b < head.len() implies (#[trigger] head[a]).0 <= (
        #[trigger] head[b]).0 by {
            assert(clusters[a].0 <= clusters[b].0);
        }
        if i < last {
            lemma_merged_cover(head, i, e);
        } else {
            lemma_merged_last(head);
        }
        assert(clusters[last - 1].0 <= clusters[last].0);
        assert(head.last() == clusters[last - 1]);
    }
    assert(clusters[last] == clusters.last());
    if i < last {
        let j = choose|j: int| 0 <= j < before.len() && (#[trigger] before[j]).0 <= e <= before[j].1;
        assert(after[j].0 <= e <= after[j].1);
    } else {
        let j = after.len() - 1;
        assert(after[j].0 <= e <= after[j].1);
    }
}

/// The last merged cluster starts no later than the last cluster.
proof fn lemma_merged_last(clusters: Seq<(int, int)>)
    requires
        clusters.len() > 0,
        forall|a: int, b: int|
            0 <= a <= b < clusters.len() ==> (#[trigger] clusters[a]).0 <= (#[trigger] clusters[b]).0,
    ensures
        merged(clusters).len() > 0,
        merged(clusters).last().0 <= clusters.last().0,
    decreases clusters.len(),
{
    let head = clusters.drop_last();
    let last = clusters.len() - 1;
    assert(clusters[last] == clusters.last());
    if head.len() > 0 {
        assert(forall|k: int| 0 <= k < head.len() ==> head[k] == clusters[k]);
        assert forall|a: int, b: int| 0 <= a <= b < head.len() implies (#[trigger] head[a]).0 <= (
        #[trigger] head[b]).0 by {
            assert(clusters[a].0 <= clusters[b].0);
        }
        lemma_merged_last(head);
        assert(clusters[last - 1].0 <= clusters[last].0);
        assert(head.last() == clusters[last - 1]);
    } else {
        assert(merged(head).len() == 0);
    }
    let after = merged(clusters);
    assert(after[after.len() - 1] == after.last());
}

/// No motion goes unseen: every moving element of a line lies in one of its
/// clusters.
pub proof fn moving_elements_are_covered(
    input: Seq<u8>,
    store: Seq<u8>,
    thr: int,
    max_e: int,
    max_start: int,
    e: int,
)
    requires
        0 <= e <= max_e,
        moves(input, store, thr, e),
    ensures
        covers(detected(input, store, thr, max_e, max_start), e),
{
    let n = (max_e + 1) as nat;
    lemma_segments_cover(input, store, thr, max_start, n, e);
    lemma_segments_in_order(input, store, thr, max_start, n);
    let all = segments(input, store, thr, max_start, n);
    let i = choose|i: int| 0 <= i < all.len() && (#[trigger] all[i]).0 <= e <= all[i].1;
    lemma_merged_cover(all, i, e);
}

/// Alignment loses nothing that can be sent: what clusters in order held, they still
/// hold, but for an element of the other parity at the edge of the line.
pub proof fn alignment_keeps_elements(
    clusters: Seq<(int, int)>,
    parity: int,
    max_e: int,
    max_start: int,
    e: int,
)
    requires
        on_line(clusters, max_e, max_start),
        forall|i: int, j: int|
            0 <= i < j < clusters.len() ==> (#[trigger] clusters[i]).1 < (
            #[trigger] clusters[j]).0,
        0 <= parity < 2,
        covers(clusters, e),
        e % 2 == parity || 0 < e < max_e,
    ensures
        covers(aligned(clusters, parity, max_e), e),
{
    let moved = Seq::new(clusters.len(), |i: int| aligned_span(clusters[i], parity, max_e));
    assert forall|a: int, b: int| 0 <= a <= b < moved.len() implies (#[trigger] moved[a]).0 <= (
    #[trigger] moved[b]).0 by {
        assert(clusters[a].0 <= clusters[a].1);
        if a < b {
            assert(clusters[a].1 < clusters[b].0);
        }
    }
    let i = choose|i: int| 0 <= i < clusters.len() && (#[trigger] clusters[i]).0 <= e <= clusters[i].1;
    assert(moved[i].0 <= e <= moved[i].1);
    lemma_merged_cover(moved, i, e);
}

/// Clusters that are apart are not merged.
proof fn lemma_merged_apart(clusters: Seq<(int, int)>)
    requires
        apart(clusters),
    ensures
        merged(clusters) == clusters,
    decreases clusters.len(),
{
    if clusters.len() > 0 {
        let head = clusters.drop_last();
        let last = clusters.len() - 1;
        assert forall|i: int, j: int| 0 <= i && j == i + 1 && j < head.len() implies (
        #[trigger] head[i]).1 + MIN_CLUSTER_GAP < (#[trigger] head[j]).0 by {
            assert(clusters[i].1 + MIN_CLUSTER_GAP < clusters[j].0);
        }
        lemma_merged_apart(head);
        if last > 0 {
            assert(clusters[last - 1].1 + MIN_CLUSTER_GAP < clusters[last].0);
            assert(head.last() == clusters[last - 1]);
        }
        assert(head.push(clusters.last()) =~= clusters);
    } else {
        assert(merged(clusters) =~= clusters);
    }
}

/// Clusters that are aligned stay as they are when they are aligned again.
pub proof fn alignment_is_idempotent(
    clusters: Seq<(int, int)>,
    parity: int,
    max_e: int,
    max_start: int,
)
    requires
        on_line(clusters, max_e, max_start),
        0 <= parity < 2,
        1 <= max_start <= max_e,
    ensures
        aligned(aligned(clusters, parity, max_e), parity, max_e) == aligned(
            clusters,
            parity,
            max_e,
        ),
{
    let once = aligned(clusters, parity, max_e);
    lemma_aligned(clusters, parity, max_e, max_start);
    let again = Seq::new(once.len(), |i: int| aligned_span(once[i], parity, max_e));
    assert forall|i: int| 0 <= i < once.len() implies again[i] == once[i] by {
        let c = once[i];
        assert(c.0 % 2 == parity && c.1 % 2 == parity && c.0 <= c.1);
    }
    assert(again =~= once);
    lemma_merged_apart(once);
}

/// The last segment ends at the last moving element.
proof fn lemma_last_moving(input: Seq<u8>, store: Seq<u8>, thr: int, max_start: int, n: nat, x: int)
    requires
        0 <= x < n,
        moves(input, store, thr, x),
    ensures
        segments(input, store, thr, max_start, n).len() > 0,
        x <= segments(input, store, thr, max_start, n).last().1 < n,
        moves(input, store, thr, segments(input, store, thr, max_start, n).last().1),
    decreases n,
{
    let m = (n - 1) as nat;
    if !moves(input, store, thr, n - 1) {
        lemma_last_moving(input, store, thr, max_start, m, x);
    }
}

/// Two moving elements at most six apart lie in one segment, the last one if no element
/// behind them moves.
proof fn lemma_close_together(
    input: Seq<u8>,
    store: Seq<u8>,
    thr: int,
    max_start: int,
    n: nat,
    x: int,
    y: int,
) -> (i: int)
    requires
        0 <= x < y < n,
        y - x <= 6,
        moves(input, store, thr, x),
        moves(input, store, thr, y),
    ensures
        ({
            let all = segments(input, store, thr, max_start, n);
            &&& 0 <= i < all.len()
            &&& all[i].0 <= x && y <= all[i].1
            &&& all.last().1 == y ==> i == all.len() - 1
        }),
    decreases n,
{
    let m = (n - 1) as nat;
    let before = segments(input, store, thr, max_start, m);
    let all = segments(input, store, thr, max_start, n);
    lemma_segments_in_order(input, store, thr, max_start, m);
    if y == n - 1 {
        lemma_last_moving(input, store, thr, max_start, m, x);
        let z = before.last().1;
        if z > x {
            let i = lemma_close_together(input, store, thr, max_start, m, x, z);
            assert(i == before.len() - 1);
        } else {
            assert(before[before.len() - 1].0 <= before[before.len() - 1].1);
        }
        assert(all[all.len() - 1].0 == before.last().0);
        all.len() - 1
    } else {
        let i = lemma_close_together(input, store, thr, max_start, m, x, y);
        assert(all[i].0 == before[i].0);
        assert(all[i].1 >= before[i].1);
        if all.last().1 == y {
            lemma_last_moving(input, store, thr, max_start, n, y);
            if moves(input, store, thr, n - 1) {
                lemma_last_moving(input, store, thr, max_start, n, n - 1);
            }
            assert(all == before);
        }
        i
    }
}

/// Motion that is close together is sent as one cluster: between two elements at most
/// six apart whose input differs from the store by more than the threshold, every
/// element is sent.
pub proof fn close_motion_is_merged(
    input: Seq<u8>,
    store: Seq<u8>,
    thr: int,
    max_e: int,
    max_start: int,
    x: int,
    y: int,
    e: int,
)
    requires
        0 <= x <= e <= y <= max_e,
        y - x <= 6,
        input[x] - store[x] > thr || store[x] - input[x] > thr,
        input[y] - store[y] > thr || store[y] - input[y] > thr,
    ensures
        exists|i: int|
            0 <= i < detected(input, store, thr, max_e, max_start).len() && (#[trigger] detected(
                input,
                store,
                thr,
                max_e,
                max_start,
            )[i]).0 <= e <= detected(input, store, thr, max_e, max_start)[i].1,
{
    let n = (max_e + 1) as nat;
    let all = segments(input, store, thr, max_start, n);
    assert(moves(input, store, thr, x) && moves(input, store, thr, y));
    if x == y {
        moving_elements_are_covered(input, store, thr, max_e, max_start, e);
    } else {
        let i = lemma_close_together(input, store, thr, max_start, n, x, y);
        lemma_segments_in_order(input, store, thr, max_start, n);
        lemma_merged_cover(all, i, e);
    }
    let done = detected(input, store, thr, max_e, max_start);
    assert(covers(done, e));
    let k = choose|k: int| 0 <= k < done.len() && (#[trigger] done[k]).0 <= e <= done[k].1;
    assert(done[k].0 <= e <= done[k].1);
}

/// Merged clusters leave at least four elements between them, and keep every element
/// that they held, in the order of their starts. Clusters that did so before stay as
/// they are.
pub proof fn merging_leaves_four_elements(clusters: Seq<(int, int)>, i: int, k: int, e: int)
    requires
        forall|a: int, b: int|
            0 <= a <= b < clusters.len() ==> (#[trigger] clusters[a]).0 <= (
            #[trigger] clusters[b]).0,
        0 <= k < clusters.len(),
        clusters[k].0 <= e <= clusters[k].1,
    ensures
        0 <= i && i + 1 < merged(clusters).len() ==> merged(clusters)[i + 1].0 - merged(
            clusters,
        )[i].1 >= 5,
        covers(merged(clusters), e),
        (forall|a: int, b: int|
            0 <= a && b == a + 1 && b < clusters.len() ==> (#[trigger] clusters[b]).0 - (
            #[trigger] clusters[a]).1 >= 5) ==> merged(clusters) == clusters,
{
    lemma_merged(clusters, 0, 0, 0);
    lemma_merged_cover(clusters, k, e);
    let done = merged(clusters);
    if 0 <= i && i + 1 < done.len() {
        let j = i + 1;
        assert(done[i].1 + MIN_CLUSTER_GAP < done[j].0);
    }
    if forall|a: int, b: int|
        0 <= a && b == a + 1 && b < clusters.len() ==> (#[trigger] clusters[b]).0 - (
        #[trigger] clusters[a]).1 >= 5 {
        assert(apart(clusters)) by {
            assert forall|a: int, b: int| 0 <= a && b == a + 1 && b < clusters.len() implies (
            #[trigger] clusters[a]).1 + MIN_CLUSTER_GAP < (#[trigger] clusters[b]).0 by {
                assert(clusters[b].0 - clusters[a].1 >= 5);
            }
        }
        lemma_merged_apart(clusters);
    }
}

/// Two clusters closer than that become one, from the start of the first to the later of
/// their ends.
pub proof fn close_clusters_become_one(a: (int, int), b: (int, int))
    requires
        b.0 - a.1 < 5,
    ensures
        merged(seq![a, b]).len() == 1,
        merged(seq![a, b])[0].0 == a.0,
        b.1 >= a.1 ==> merged(seq![a, b])[0].1 == b.1,
        b.1 < a.1 ==> merged(seq![a, b])[0].1 == a.1,
{
    let both = seq![a, b];
    assert(both.drop_last() =~= seq![a]);
    assert(seq![a].drop_last() =~= Seq::<(int, int)>::empty());
    assert(merged(seq![a]) =~= seq![a]) by {
        assert(merged(Seq::<(int, int)>::empty()) =~= Seq::<(int, int)>::empty());
    }
}

/// Aligning a cluster moves each of its ends by one element at most, outwards where the
/// line has room, so that both are of the parity.
pub proof fn alignment_moves_ends_by_one(s: int, e: int, parity: int, max_e: int)
    requires
        0 <= s <= e <= max_e,
        0 <= parity < 2,
        1 <= max_e,
    ensures
        ({
            let got = aligned(seq![(s, e)], parity, max_e);
            let (a, b) = got[0];
            &&& got.len() == 1
            &&& a % 2 == parity && b % 2 == parity && 0 <= a <= b <= max_e
            &&& s % 2 == parity ==> a == s
            &&& s % 2 != parity && s > 0 ==> a == s - 1
            &&& s % 2 != parity && s == 0 ==> a == 1
            &&& e % 2 == parity ==> b == e
            &&& e % 2 != parity && e < max_e ==> b == e + 1
            &&& e % 2 != parity && e == max_e && s < e ==> b == e - 1
        }),
{
    let one = seq![(s, e)];
    let moved = Seq::new(one.len(), |i: int| aligned_span(one[i], parity, max_e));
    assert(moved.drop_last() =~= Seq::<(int, int)>::empty());
    assert(merged(Seq::<(int, int)>::empty()) =~= Seq::<(int, int)>::empty());
    assert(merged(moved) =~= moved);
}

/// A line without moving elements has no clusters.
pub proof fn still_line_has_no_clusters(
    input: Seq<u8>,
    store: Seq<u8>,
    thr: int,
    max_e: int,
    max_start: int,
)
    requires
        0 <= max_e,
        forall|e: int| 0 <= e <= max_e ==> !moves(input, store, thr, e),
    ensures
        detected(input, store, thr, max_e, max_start).len() == 0,
{
    lemma_still_segments(input, store, thr, max_start, (max_e + 1) as nat);
}

proof fn lemma_still_segments(input: Seq<u8>, store: Seq<u8>, thr: int, max_start: int, n: nat)
    requires
        forall|e: int| 0 <= e < n ==> !moves(input, store, thr, e),
    ensures
        segments(input, store, thr, max_start, n).len() == 0,
    decreases n,
{
    if n > 0 {
        lemma_still_segments(input, store, thr, max_start, (n - 1) as nat);
    }
}

/// Merges clusters that no longer respect the minimum 4-element gap between
/// end and start (§1.5.3).
pub fn merge_close(clusters: &mut Vec<(usize, usize)>)
    requires
        forall|i: int|
            0 <= i < old(clusters)@.len() ==> (#[trigger] old(clusters)@[i]).1 <= usize::MAX
                - MIN_CLUSTER_GAP,
    ensures
        spans(final(clusters)@) == merged(spans(old(clusters)@)),
{
    let mut merged_list: Vec<(usize, usize)> = Vec::new();
    let ghost all = spans(clusters@);
    let mut i: usize = 0;
    assert(all.take(0) =~= Seq::<(int, int)>::empty());
    assert(spans(merged_list@) =~= merged(all.take(0)));
    while i < clusters.len()
        invariant
            i <= clusters@.len(),
            clusters@ == old(clusters)@,
            all == spans(clusters@),
            forall|k: int|
                0 <= k < clusters@.len() ==> (#[trigger] clusters@[k]).1 <= usize::MAX
                    - MIN_CLUSTER_GAP,
            forall|k: int|
                0 <= k < merged_list@.len() ==> (#[trigger] merged_list@[k]).1 <= usize::MAX
                    - MIN_CLUSTER_GAP,
            spans(merged_list@) == merged(all.take(i as int)),
        decreases clusters@.len() - i,
    {
        let (s, e) = clusters[i];
        let n = merged_list.len();
        let ghost before = spans(merged_list@);
        proof {
            assert(all.take(i + 1).drop_last() =~= all.take(i as int));
            assert(all.take(i + 1).last() == (s as int, e as int));
        }
        if n > 0 && s <= merged_list[n - 1].1 + MIN_CLUSTER_GAP {
            let (ps, pe) = merged_list[n - 1];
            merged_list[n - 1] = (
                ps,
                if e > pe {
                    e
                } else {
                    pe
                },
            );
            assert(before.last() == (ps as int, pe as int));
        } else {
            merged_list.push((s, e));
        }
        assert(spans(merged_list@) =~= merged(all.take(i + 1)));
        i += 1;
    }
    assert(all.take(i as int) =~= all);
    *clusters = merged_list;
}

/// Cluster detection on a line: segments where |input − store| exceeds the
/// threshold, merged when the gap between two segments is smaller than the
/// minimum allowed gap between clusters (4 elements, §1.5.3) or small enough
/// that merging costs less than the addressing. `max_e` is the last codable
/// element (255 excluded for luma, §1.4.1.1); `max_start` the last allowed
/// start address (254 for luma, sample 50 for chroma whose address 0x37 is
/// forbidden, §1.5.4).
pub fn detect_clusters(
    input: &[u8],
    store: &[u8],
    thr: u8,
    max_e: usize,
    max_start: usize,
) -> (clusters: Vec<(usize, usize)>)
    requires
        max_e < input@.len(),
        max_e < store@.len(),
        max_e <= usize::MAX - MIN_CLUSTER_GAP,
    ensures
        spans(clusters@) == detected(
            input@,
            store@,
            thr as int,
            max_e as int,
            max_start as int,
        ),
        on_line(spans(clusters@), max_e as int, max_start as int),
        apart(spans(clusters@)),
{
    let mut clusters: Vec<(usize, usize)> = Vec::new();
    let mut e: usize = 0;
    assert(spans(clusters@) =~= segments(input@, store@, thr as int, max_start as int, 0));
    while e <= max_e
        invariant
            e <= max_e + 1,
            max_e < input@.len(),
            max_e < store@.len(),
            max_e <= usize::MAX - MIN_CLUSTER_GAP,
            forall|k: int| 0 <= k < clusters@.len() ==> (#[trigger] clusters@[k]).1 < e,
            spans(clusters@) == segments(
                input@,
                store@,
                thr as int,
                max_start as int,
                e as nat,
            ),
        decreases max_e + 1 - e,
    {
        let ghost before = spans(clusters@);
        let diff: u8 = if input[e] >= store[e] {
            input[e] - store[e]
        } else {
            store[e] - input[e]
        };
        if diff > thr {
            let n = clusters.len();
            if n > 0 && e - clusters[n - 1].1 <= MERGE_GAP {
                let (s, last) = clusters[n - 1];
                clusters[n - 1] = (s, e);
                assert(before.last() == (s as int, last as int));
            } else {
                let start = if e <= max_start {
                    e
                } else {
                    max_start
                };
                clusters.push((start, e));
                proof {
                    if n > 0 {
                        assert(before.last().1 == clusters@[n - 1].1);
                    }
                }
            }
        }
        assert(spans(clusters@) =~= segments(
            input@,
            store@,
            thr as int,
            max_start as int,
            (e + 1) as nat,
        ));
        e += 1;
    }
    // Pulling a start back (max_start) may create an overlap.
    merge_close(&mut clusters);
    proof {
        lemma_detected(input@, store@, thr as int, max_e as int, max_start as int);
    }
    clusters
}

/// Aligns cluster start and end to the line parity (quincunx transmission):
/// extends by one element if needed, shortens at the line edge (§1.4.1.4.1),
/// then re-merges if the minimum 4-element gap is no longer respected.
pub fn adjust_parity(clusters: &mut Vec<(usize, usize)>, parity: usize, max_e: usize)
    requires
        forall|i: int|
            0 <= i < old(clusters)@.len() ==> {
                &&& (#[trigger] old(clusters)@[i]).0 <= usize::MAX - MIN_CLUSTER_GAP - 1
                &&& old(clusters)@[i].1 <= usize::MAX - MIN_CLUSTER_GAP - 1
                &&& old(clusters)@[i].1 > 0 || max_e > 0 || parity == 0
            },
    ensures
        spans(final(clusters)@) == aligned(spans(old(clusters)@), parity as int, max_e as int),
{
    let ghost all = spans(clusters@);
    let ghost want = Seq::new(
        all.len(),
        |i: int| aligned_span(all[i], parity as int, max_e as int),
    );
    let mut i: usize = 0;
    while i < clusters.len()
        invariant
            i <= clusters@.len(),
            clusters@.len() == old(clusters)@.len(),
            all == spans(old(clusters)@),
            want == Seq::new(
                all.len(),
                |i: int| aligned_span(all[i], parity as int, max_e as int),
            ),
            forall|k: int|
                0 <= k < old(clusters)@.len() ==> {
                    &&& (#[trigger] old(clusters)@[k]).0 <= usize::MAX - MIN_CLUSTER_GAP - 1
                    &&& old(clusters)@[k].1 <= usize::MAX - MIN_CLUSTER_GAP - 1
                    &&& old(clusters)@[k].1 > 0 || max_e > 0 || parity == 0
                },
            forall|k: int|
                0 <= k < i ==> (#[trigger] clusters@[k]).1 <= usize::MAX - MIN_CLUSTER_GAP && (
                clusters@[k].0 as int, clusters@[k].1 as int) == want[k],
            forall|k: int|
                i <= k < clusters@.len() ==> #[trigger] clusters@[k] == old(clusters)@[k],
        decreases clusters@.len() - i,
    {
        assert(clusters@[i as int] == old(clusters)@[i as int]);
        let (s0, e0) = clusters[i];
        let s: usize = if s0 % 2 == parity {
            s0
        } else if s0 > 0 {
            s0 - 1
        } else {
            s0 + 1
        };
        let e: usize = if e0 % 2 == parity {
            e0
        } else if e0 + 1 <= max_e {
            e0 + 1
        } else {
            e0 - 1
        };
        clusters[i] = (
            s,
            if e < s {
                s
            } else {
                e
            },
        );
        i += 1;
    }
    assert(spans(clusters@) =~= want);
    // Parity may reduce the gap between clusters below the minimum: merge.
    merge_close(clusters);
}

} // verus!
