//! In steady state, the refresh comes by every line of the image.

use vstd::prelude::*;
use crate::codec::bootstrap;
use crate::codec::dpcm;
use crate::codec::encoder;
use crate::codec::encoder::{EncCounts, EncView};
use crate::codec::lockstep;
use crate::codec::refresh;
use crate::codec::still;
use crate::codec::LINES_PER_FIELD;
use crate::source;
use crate::source::InputView;
use crate::y4m::FrameView;

verus! {

/// The encoder after some more frames.
pub open spec fn run(ev: EncView, frames: Seq<FrameView>) -> EncView
    decreases frames.len(),
{
    if frames.len() == 0 {
        ev
    } else {
        encoder::frame_sent(run(ev, frames.drop_last()), frames.last())
    }
}

/// Each scheduled line from line `l` on finds room in the buffer when it comes.
pub open spec fn lines_find_room(
    ev: EncView,
    f: int,
    l: int,
    input: InputView,
    plan: Seq<bool>,
    nt: Seq<bool>,
) -> bool
    decreases LINES_PER_FIELD - l,
{
    if l >= LINES_PER_FIELD {
        true
    } else {
        let pcm = encoder::sends_pcm(ev, f, l, plan[l]);
        &&& plan[l] ==> encoder::finds_room(ev, f, l)
        &&& lines_find_room(
            encoder::line_sent(ev, f, l, input, pcm, nt),
            f,
            l + 1,
            input,
            plan,
            encoder::line_code(ev, f, l, input, pcm, nt).not_trans,
        )
    }
}

/// A field in steady state: no line is left that was never refreshed, the buffer is
/// below 45 %, and the scheduled line finds room when it comes.
pub open spec fn steady_field(ev: EncView, f: int, input: InputView) -> bool {
    &&& !encoder::bootstrapping(ev.refreshed[f])
    &&& encoder::below(ev.occupancy, encoder::PCM_REFRESH_BELOW as nat)
    &&& lines_find_room(
        encoder::field_opened(ev, f),
        f,
        0,
        input,
        encoder::scheduled(ev, f).0,
        dpcm::none_omitted(),
    )
}

/// A frame both of whose fields are in steady state.
#[verifier::opaque]
pub open spec fn steady_frame(ev: EncView, frame: FrameView) -> bool {
    let counted = EncView {
        stats: EncCounts { frames: ev.stats.frames + 1, ..ev.stats },
        ..ev
    };
    &&& steady_field(counted, 0, source::ingested(frame, ev.mono, 0))
    &&& steady_field(
        encoder::first_field_sent(ev, frame),
        1,
        source::ingested(frame, ev.mono, 1),
    )
}

/// A scheduled line that finds room is sent.
proof fn lemma_room_is_used(
    ev: EncView,
    f: int,
    l: int,
    input: InputView,
    plan: Seq<bool>,
    nt: Seq<bool>,
    k: int,
)
    requires
        lines_find_room(ev, f, l, input, plan, nt),
        l <= k < LINES_PER_FIELD,
        plan[k],
    ensures
        still::pcm_in_lines(ev, f, l, input, plan, nt, k),
    decreases LINES_PER_FIELD - l,
{
    let pcm = encoder::sends_pcm(ev, f, l, plan[l]);
    if l < k {
        lemma_room_is_used(
            encoder::line_sent(ev, f, l, input, pcm, nt),
            f,
            l + 1,
            input,
            plan,
            encoder::line_code(ev, f, l, input, pcm, nt).not_trans,
            k,
        );
    }
}

/// A field in steady state sends the line at the refresh pointer, and moves on by one.
proof fn lemma_steady_field(ev: EncView, f: int, input: InputView)
    requires
        ev.wf_but(1),
        0 <= f < 2,
        input.wf(),
        steady_field(ev, f, input),
    ensures
        still::pcm_in_field(ev, f, input, ev.refresh_ptr[f]),
        encoder::field_sent(ev, f, input).refresh_ptr == ev.refresh_ptr.update(
            f,
            (ev.refresh_ptr[f] + 1) % (LINES_PER_FIELD as int),
        ),
{
    let ptr = ev.refresh_ptr[f];
    assert(0 <= ptr < LINES_PER_FIELD);
    refresh::steady_refresh_rotates(ev, f, ptr);
    bootstrap::lemma_pointer_kept(ev, f, input);
    lemma_room_is_used(
        encoder::field_opened(ev, f),
        f,
        0,
        input,
        encoder::scheduled(ev, f).0,
        dpcm::none_omitted(),
        ptr,
    );
}

/// A frame in steady state sends the lines at both refresh pointers, and moves both on
/// by one.
proof fn lemma_steady_frame(ev: EncView, frame: FrameView, f: int)
    requires
        ev.wf(),
        0 <= f < 2,
        steady_frame(ev, frame),
    ensures
        still::pcm_in_frame(ev, frame, f, ev.refresh_ptr[f]),
        encoder::frame_sent(ev, frame).refresh_ptr[f] == (ev.refresh_ptr[f] + 1) % (
        LINES_PER_FIELD as int),
{
    reveal(still::pcm_in_frame);
    reveal(steady_frame);
    let counted = EncView {
        stats: EncCounts { frames: ev.stats.frames + 1, ..ev.stats },
        ..ev
    };
    let first = source::ingested(frame, ev.mono, 0);
    let second = source::ingested(frame, ev.mono, 1);
    let half = encoder::first_field_sent(ev, frame);
    source::lemma_ingested_legal(frame, ev.mono, 0);
    source::lemma_ingested_legal(frame, ev.mono, 1);
    lockstep::lemma_frame_sent(ev, frame);
    lemma_steady_field(counted, 0, first);
    assert(half.refresh_ptr == encoder::field_sent(counted, 0, first).refresh_ptr);
    lemma_steady_field(half, 1, second);
    assert(!encoder::omits_field(half));
}

/// Moving on by one, `n` times and once more.
proof fn lemma_rotate(p: int, n: int)
    requires
        0 <= p,
        0 <= n,
    ensures
        ((p + n) % 143 + 1) % 143 == (p + (n + 1)) % 143,
{
}

/// Frames in steady state move both refresh pointers on by one each.
#[verifier::spinoff_prover]
#[verifier::rlimit(100)]
proof fn lemma_pointer_rotates(ev: EncView, frames: Seq<FrameView>, f: int)
    requires
        ev.wf(),
        0 <= f < 2,
        forall|k: int|
            0 <= k < frames.len() ==> steady_frame(#[trigger] run(ev, frames.take(k)), frames[k]),
    ensures
        run(ev, frames).wf(),
        run(ev, frames).refresh_ptr[f] == (ev.refresh_ptr[f] + frames.len()) % (
        LINES_PER_FIELD as int),
    decreases frames.len(),
{
    assert(0 <= ev.refresh_ptr[f] < LINES_PER_FIELD);
    if frames.len() > 0 {
        let before = frames.drop_last();
        let n = before.len() as int;
        assert forall|k: int| 0 <= k < before.len() implies steady_frame(
            #[trigger] run(ev, before.take(k)),
            before[k],
        ) by {
            assert(before.take(k) =~= frames.take(k));
        }
        lemma_pointer_rotates(ev, before, f);
        assert(before =~= frames.take(n));
        assert(steady_frame(run(ev, frames.take(n)), frames[n]));
        lockstep::lemma_frame_sent(run(ev, before), frames.last());
        lemma_steady_frame(run(ev, before), frames.last(), f);
        lemma_rotate(ev.refresh_ptr[f], n);
    }
}

/// In steady state the whole image is refreshed in 143 frames: if no line is left that
/// was never refreshed, both fields of 143 frames in a row start below 45 %, and each
/// scheduled line finds room, then every line of both fields is sent as a PCM line, in
/// the frame in which the rotation comes by it.
#[verifier::spinoff_prover]
#[verifier::rlimit(80)]
pub proof fn steady_refresh_covers_the_image(
    ev: EncView,
    frames: Seq<FrameView>,
    f: int,
    l: int,
)
    requires
        ev.wf(),
        frames.len() == LINES_PER_FIELD,
        forall|k: int|
            0 <= k < frames.len() ==> steady_frame(#[trigger] run(ev, frames.take(k)), frames[k]),
        0 <= f < 2,
        0 <= l < LINES_PER_FIELD,
    ensures
        ({
            let k = (l - ev.refresh_ptr[f]) % (LINES_PER_FIELD as int);
            0 <= k < frames.len() && still::pcm_in_frame(
                run(ev, frames.take(k)),
                frames[k],
                f,
                l,
            )
        }),
{
    assert(0 <= ev.refresh_ptr[f] < LINES_PER_FIELD);
    let k = (l - ev.refresh_ptr[f]) % (LINES_PER_FIELD as int);
    assert(k == if l >= ev.refresh_ptr[f] {
        l - ev.refresh_ptr[f]
    } else {
        l - ev.refresh_ptr[f] + LINES_PER_FIELD
    });
    assert((ev.refresh_ptr[f] + k) % (LINES_PER_FIELD as int) == l);
    let first = frames.take(k);
    assert forall|i: int| 0 <= i < first.len() implies steady_frame(
        #[trigger] run(ev, first.take(i)),
        first[i],
    ) by {
        assert(first.take(i) =~= frames.take(i));
    }
    lemma_pointer_rotates(ev, first, f);
    assert(steady_frame(run(ev, frames.take(k)), frames[k]));
    lemma_steady_frame(run(ev, first), frames[k], f);
}

} // verus!
