//! How the image builds up: lines that were never refreshed become fewer.

use vstd::prelude::*;
use crate::codec::dpcm;
use crate::codec::encoder;
use crate::codec::encoder::{EncCounts, EncView};
use crate::codec::lockstep;
use crate::codec::refresh;
use crate::codec::still;
use crate::codec::LINES_PER_FIELD;
use crate::source;
use crate::source::InputView;
use crate::y4m::FrameView;

verus! {

/// The number of lines from line `l` on that were never refreshed.
pub open spec fn unrefreshed(refreshed: Seq<bool>, l: int) -> nat
    decreases LINES_PER_FIELD - l,
{
    if l >= LINES_PER_FIELD {
        0
    } else {
        unrefreshed(refreshed, l + 1) + if refreshed[l] {
            0nat
        } else {
            1nat
        }
    }
}

/// Refreshing lines that were not takes them off the count.
proof fn lemma_count(before: Seq<bool>, plan: Seq<bool>, after: Seq<bool>, l: int)
    requires
        0 <= l <= LINES_PER_FIELD,
        forall|k: int|
            0 <= k < LINES_PER_FIELD ==> #[trigger] after[k] == (before[k] || plan[k]) && (plan[k]
                ==> !before[k]),
    ensures
        unrefreshed(after, l) + refresh::pcm_left(plan, l) == unrefreshed(before, l),
    decreases LINES_PER_FIELD - l,
{
    if l < LINES_PER_FIELD {
        assert(after[l] == (before[l] || plan[l]));
        lemma_count(before, plan, after, l + 1);
    }
}

/// Lines that stay refreshed do not add to the count; one more takes one off it.
proof fn lemma_fewer(before: Seq<bool>, after: Seq<bool>, l: int, k: int)
    requires
        0 <= l <= LINES_PER_FIELD,
        forall|i: int| 0 <= i < LINES_PER_FIELD && before[i] ==> #[trigger] after[i],
    ensures
        unrefreshed(after, l) <= unrefreshed(before, l),
        l <= k < LINES_PER_FIELD && !before[k] && after[k] ==> unrefreshed(after, l) < unrefreshed(
            before,
            l,
        ),
    decreases LINES_PER_FIELD - l,
{
    if l < LINES_PER_FIELD {
        assert(before[l] ==> after[l]);
        lemma_fewer(before, after, l + 1, k);
    }
}

/// Some line is left, or the count is zero.
proof fn lemma_some_left(refreshed: Seq<bool>, l: int) -> (k: int)
    requires
        0 <= l <= LINES_PER_FIELD,
        unrefreshed(refreshed, l) > 0,
    ensures
        l <= k < LINES_PER_FIELD,
        !refreshed[k],
    decreases LINES_PER_FIELD - l,
{
    if !refreshed[l] {
        l
    } else {
        lemma_some_left(refreshed, l + 1)
    }
}

/// While lines are left that were never refreshed, a field that sends a PCM line
/// leaves fewer of them. (A scheduled line is sent unless the buffer has no room for
/// it.) No field makes them more.
pub proof fn sent_lines_are_refreshed(ev: EncView, f: int, input: InputView, k: int)
    requires
        ev.wf(),
        0 <= f < 2,
        0 <= k < LINES_PER_FIELD,
        input.wf(),
    ensures
        ({
            let done = encoder::field_sent(ev, f, input);
            &&& unrefreshed(done.refreshed[f], 0) <= unrefreshed(ev.refreshed[f], 0)
            &&& encoder::bootstrapping(ev.refreshed[f]) && still::pcm_in_field(ev, f, input, k)
                ==> unrefreshed(done.refreshed[f], 0) < unrefreshed(ev.refreshed[f], 0)
        }),
{
    let done = encoder::field_sent(ev, f, input);
    assert forall|i: int| 0 <= i < LINES_PER_FIELD && ev.refreshed[f][i] implies
        #[trigger] done.refreshed[f][i] by {
        still::lemma_pcm_field(ev, f, input, i);
    }
    still::lemma_pcm_field(ev, f, input, k);
    if encoder::bootstrapping(ev.refreshed[f]) && still::pcm_in_field(ev, f, input, k) {
        lemma_sent_is_planned(
            encoder::field_opened(ev, f),
            f,
            0,
            input,
            encoder::scheduled(ev, f).0,
            dpcm::none_omitted(),
            k,
        );
        refresh::bootstrap_schedules_what_fits(ev, f, k);
    }
    lemma_fewer(ev.refreshed[f], done.refreshed[f], 0, k);
}

/// Only scheduled lines are sent as PCM lines.
proof fn lemma_sent_is_planned(
    ev: EncView,
    f: int,
    l: int,
    input: InputView,
    plan: Seq<bool>,
    nt: Seq<bool>,
    k: int,
)
    requires
        still::pcm_in_lines(ev, f, l, input, plan, nt, k),
    ensures
        plan[k],
        l <= k,
    decreases LINES_PER_FIELD - l,
{
    let pcm = encoder::sends_pcm(ev, f, l, plan[l]);
    if !(pcm && l == k) {
        lemma_sent_is_planned(
            encoder::line_sent(ev, f, l, input, pcm, nt),
            f,
            l + 1,
            input,
            plan,
            encoder::line_code(ev, f, l, input, pcm, nt).not_trans,
            k,
        );
    }
}

/// The plan leaves no line behind: before the last line that it holds, every line
/// is refreshed or held.
spec fn in_order(refreshed: Seq<bool>, plan: Seq<bool>) -> bool {
    forall|i: int, j: int|
        0 <= i < j < LINES_PER_FIELD && !#[trigger] refreshed[i] && !plan[i]
            ==> !#[trigger] plan[j]
}

/// Every line is refreshed, or held by the plan.
spec fn complete(refreshed: Seq<bool>, plan: Seq<bool>) -> bool {
    forall|k: int| 0 <= k < LINES_PER_FIELD ==> #[trigger] refreshed[k] || plan[k]
}

/// A walk over refreshed lines picks nothing.
proof fn lemma_walk_refreshed(
    refreshed: Seq<bool>,
    ptr: int,
    visited: int,
    budget: nat,
    lines: Seq<bool>,
)
    requires
        0 <= ptr < LINES_PER_FIELD,
        0 <= visited,
        ptr <= visited,
        forall|k: int| ptr <= k < ptr + LINES_PER_FIELD - visited ==> #[trigger] refreshed[k],
    ensures
        encoder::picked(refreshed, false, ptr, visited, budget, lines).0 == lines,
    decreases LINES_PER_FIELD - visited,
{
    if budget > 0 && visited < LINES_PER_FIELD {
        assert(refreshed[ptr]);
        let next = (ptr + 1) % (LINES_PER_FIELD as int);
        if visited + 1 < LINES_PER_FIELD {
            assert(next == ptr + 1);
        }
        lemma_walk_refreshed(refreshed, next, visited + 1, budget, lines);
    }
}

/// A walk that has left no line behind leaves none behind.
proof fn lemma_walk(
    refreshed: Seq<bool>,
    ptr: int,
    visited: int,
    budget: nat,
    lines: Seq<bool>,
)
    requires
        0 <= ptr < LINES_PER_FIELD,
        0 <= visited <= ptr,
        lines.len() == LINES_PER_FIELD,
        forall|k: int| 0 <= k < ptr - visited ==> #[trigger] refreshed[k],
        forall|k: int| 0 <= k < ptr ==> #[trigger] refreshed[k] || lines[k],
        forall|k: int| ptr <= k < LINES_PER_FIELD ==> !#[trigger] lines[k],
    ensures
        ({
            let (plan, next) = encoder::picked(refreshed, false, ptr, visited, budget, lines);
            &&& in_order(refreshed, plan)
            &&& forall|k: int| 0 <= k < next ==> #[trigger] refreshed[k] || plan[k]
        }),
    decreases LINES_PER_FIELD - visited,
{
    if budget > 0 && visited < LINES_PER_FIELD {
        let take = !refreshed[ptr];
        let more = if take {
            lines.update(ptr, true)
        } else {
            lines
        };
        let left: nat = if take {
            (budget - 1) as nat
        } else {
            budget
        };
        if ptr + 1 < LINES_PER_FIELD {
            assert((ptr + 1) % (LINES_PER_FIELD as int) == ptr + 1);
            assert forall|k: int| 0 <= k < ptr + 1 implies #[trigger] refreshed[k] || more[k] by {
                if k < ptr {
                    assert(refreshed[k] || lines[k]);
                }
            }
            lemma_walk(refreshed, ptr + 1, visited + 1, left, more);
        } else {
            assert((ptr + 1) % (LINES_PER_FIELD as int) == 0);
            assert(complete(refreshed, more)) by {
                assert forall|k: int| 0 <= k < LINES_PER_FIELD implies #[trigger] refreshed[k]
                    || more[k] by {
                    if k < ptr {
                        assert(refreshed[k] || lines[k]);
                    }
                }
            }
            lemma_walk_refreshed(refreshed, 0, visited + 1, left, more);
            encoder::lemma_picked(refreshed, false, 0, visited + 1, left, more);
        }
    }
}

/// The scene builds up from the top: the lines of field `f` before the refresh
/// pointer were refreshed, and every line that was refreshed shows the input.
pub open spec fn builds_up(ev: EncView, f: int, input: InputView) -> bool {
    &&& forall|k: int| 0 <= k < ev.refresh_ptr[f] ==> #[trigger] ev.refreshed[f][k]
    &&& forall|k: int|
        0 <= k < LINES_PER_FIELD && #[trigger] ev.refreshed[f][k] ==> still::line_shows(
            ev.fields[f],
            input,
            k,
        )
}

/// The lines of a static scene: every scheduled line finds room and is sent.
proof fn lemma_static_lines(
    ev: EncView,
    f: int,
    l: int,
    input: InputView,
    plan: Seq<bool>,
    nt: Seq<bool>,
    k: int,
)
    requires
        ev.wf_but(2),
        l > 0 ==> ev.wf(),
        0 <= f < 2,
        0 <= l <= LINES_PER_FIELD,
        0 <= k < LINES_PER_FIELD,
        input.wf(),
        plan.len() == LINES_PER_FIELD,
        in_order(ev.refreshed[f], plan),
        forall|i: int|
            0 <= i < LINES_PER_FIELD && #[trigger] ev.refreshed[f][i] ==> still::line_shows(
                ev.fields[f],
                input,
                i,
            ),
        refresh::pcm_left(plan, l) > 0 ==> ev.occupancy + 17_875_000 * refresh::pcm_left(plan, l)
            <= 492_011_520 + (if l == 0 {
            0
        } else {
            343_200 + 143_000 * l
        }),
    ensures
        still::pcm_in_lines(ev, f, l, input, plan, nt, k) == (k >= l && plan[k]),
    decreases LINES_PER_FIELD - l,
{
    if l < LINES_PER_FIELD {
        let pcm = encoder::sends_pcm(ev, f, l, plan[l]);
        let next = encoder::line_sent(ev, f, l, input, pcm, nt);
        let code = encoder::line_code(ev, f, l, input, pcm, nt);
        encoder::lemma_line_sent(ev, f, l, input, pcm, nt);
        encoder::lemma_line_code(ev, f, l, input, pcm, nt);
        encoder::lemma_start_code(ev, f, l, encoder::subsamples(ev, pcm));
        assert(ev.fields[f].wf()) by {
            assert(ev.fields[0].wf() && ev.fields[1].wf());
        }
        assert(ev.refreshed[f].len() == LINES_PER_FIELD);
        if plan[l] {
            lemma_room(ev, f, l);
            assert(pcm);
            still::lemma_still_line(ev, f, l, input, pcm, nt);
        } else if refresh::pcm_left(plan, l) > 0 {
            let j = refresh::lemma_some_planned(plan, l + 1);
            assert(ev.refreshed[f][l]);
            still::lemma_still_line(ev, f, l, input, pcm, nt);
        } else if ev.refreshed[f][l] {
            still::lemma_still_line(ev, f, l, input, pcm, nt);
        }
        assert(in_order(next.refreshed[f], plan)) by {
            assert forall|i: int, j: int|
                0 <= i < j < LINES_PER_FIELD && !#[trigger] next.refreshed[f][i]
                    && !plan[i] implies !#[trigger] plan[j] by {
                assert(!ev.refreshed[f][i]);
            }
        }
        assert forall|i: int| 0 <= i < LINES_PER_FIELD && #[trigger] next.refreshed[f][i] implies
            still::line_shows(next.fields[f], input, i) by {
            if i != l {
                assert(ev.refreshed[f][i]);
            }
        }
        lemma_static_lines(next, f, l + 1, input, plan, code.not_trans, k);
    }
}

/// Below three quarters of the buffer there is room for a PCM line on any channel.
proof fn lemma_room(ev: EncView, f: int, l: int)
    requires
        ev.occupancy <= 527_155_200,
        0 <= f < 2,
        0 <= l < LINES_PER_FIELD,
    ensures
        encoder::finds_room(ev, f, l),
{
    let short = encoder::shortfall(ev.bitrate) as int;
    assert(short * (142 - l) <= 143_000 * 285 && short * (285 - l) <= 143_000 * 285)
        by (nonlinear_arith)
        requires
            0 <= short <= 143_000,
            0 <= l <= 142,
    ;
}

/// While the image of a static scene builds up, every scheduled line is sent: as many
/// lines are left as before, less those that the buffer allows, so a field whose
/// budget is not zero leaves fewer. And the scene goes on building up.
pub proof fn static_field_refreshes_its_schedule(ev: EncView, f: int, input: InputView)
    requires
        ev.wf_but(1),
        0 <= f < 2,
        input.wf(),
        builds_up(ev, f, input),
    ensures
        ({
            let done = encoder::field_sent(ev, f, input);
            let left = unrefreshed(ev.refreshed[f], 0);
            let budget = encoder::bootstrap_budget(ev.occupancy);
            &&& builds_up(done, f, input)
            &&& unrefreshed(done.refreshed[f], 0) == if left <= budget {
                0
            } else {
                (left - budget) as nat
            }
        }),
{
    let done = encoder::field_sent(ev, f, input);
    let opened = encoder::field_opened(ev, f);
    let (plan, next) = encoder::scheduled(ev, f);
    let none = dpcm::none_omitted();
    let refreshed = ev.refreshed[f];
    encoder::lemma_field_opened(ev, f);
    encoder::lemma_field_sent(ev, f, input);
    assert(0 <= ev.refresh_ptr[f] < LINES_PER_FIELD);
    assert(refreshed.len() == LINES_PER_FIELD);
    lemma_pointer_kept(ev, f, input);
    assert forall|k: int| 0 <= k < LINES_PER_FIELD && #[trigger] done.refreshed[f][k] implies
        still::line_shows(done.fields[f], input, k) by {
        still::lemma_pcm_field(ev, f, input, k);
        assert(ev.refreshed[f][k] ==> still::line_shows(ev.fields[f], input, k));
    }
    if encoder::bootstrapping(refreshed) {
        let budget = encoder::bootstrap_budget(ev.occupancy);
        lemma_walk(
            refreshed,
            ev.refresh_ptr[f],
            0,
            budget,
            Seq::new(LINES_PER_FIELD as nat, |l: int| false),
        );
        refresh::schedule_fits(ev, f);
        assert forall|i: int| 0 <= i < LINES_PER_FIELD && #[trigger] opened.refreshed[f][i] implies
            still::line_shows(opened.fields[f], input, i) by {
            assert(ev.refreshed[f][i]);
        }
        assert forall|k: int| 0 <= k < LINES_PER_FIELD implies #[trigger] done.refreshed[f][k] == (
        refreshed[k] || plan[k]) && (plan[k] ==> !refreshed[k]) by {
            still::lemma_pcm_field(ev, f, input, k);
            lemma_static_lines(opened, f, 0, input, plan, none, k);
            refresh::bootstrap_schedules_what_fits(ev, f, k);
        }
        lemma_count(refreshed, plan, done.refreshed[f], 0);
        refresh::bootstrap_schedules_what_fits(ev, f, 0);
        if unrefreshed(done.refreshed[f], 0) > 0 {
            let k = lemma_some_left(done.refreshed[f], 0);
            assert(done.refreshed[f][k] == (refreshed[k] || plan[k]));
            refresh::bootstrap_schedules_what_fits(ev, f, k);
        }
        assert forall|k: int| 0 <= k < done.refresh_ptr[f] implies #[trigger] done.refreshed[f][k] by {
            assert(refreshed[k] || plan[k]);
            assert(done.refreshed[f][k] == (refreshed[k] || plan[k]));
        }
    } else {
        assert forall|k: int| 0 <= k < LINES_PER_FIELD implies #[trigger] done.refreshed[f][k] by {
            still::lemma_pcm_field(ev, f, input, k);
            assert(refreshed[k]);
        }
        if unrefreshed(done.refreshed[f], 0) > 0 {
            let k = lemma_some_left(done.refreshed[f], 0);
            assert(done.refreshed[f][k]);
        }
        if unrefreshed(refreshed, 0) > 0 {
            let k = lemma_some_left(refreshed, 0);
        }
    }
}

/// Coding lines leaves the refresh pointers as they are.
proof fn lemma_lines_keep_pointers(
    ev: EncView,
    f: int,
    l: int,
    input: InputView,
    plan: Seq<bool>,
    nt: Seq<bool>,
)
    ensures
        encoder::lines_sent(ev, f, l, input, plan, nt).refresh_ptr == ev.refresh_ptr,
    decreases LINES_PER_FIELD - l,
{
    if l < LINES_PER_FIELD {
        let pcm = encoder::sends_pcm(ev, f, l, plan[l]);
        lemma_lines_keep_pointers(
            encoder::line_sent(ev, f, l, input, pcm, nt),
            f,
            l + 1,
            input,
            plan,
            encoder::line_code(ev, f, l, input, pcm, nt).not_trans,
        );
    }
}

/// The refresh pointer of a field moves by its schedule alone.
pub proof fn lemma_pointer_kept(ev: EncView, f: int, input: InputView)
    requires
        ev.wf_but(1),
        0 <= f < 2,
    ensures
        encoder::field_sent(ev, f, input).refresh_ptr == ev.refresh_ptr.update(
            f,
            encoder::scheduled(ev, f).1,
        ),
        0 <= encoder::scheduled(ev, f).1 < LINES_PER_FIELD,
{
    reveal(encoder::field_sent);
    encoder::lemma_field_opened(ev, f);
    lemma_lines_keep_pointers(
        encoder::field_opened(ev, f),
        f,
        0,
        input,
        encoder::scheduled(ev, f).0,
        dpcm::none_omitted(),
    );
    let opened = encoder::field_opened(ev, f);
    assert(opened.wf_but(2));
    assert(opened.refresh_ptr[f] == encoder::scheduled(ev, f).1);
}

/// Building up depends on the lines, their refreshes and the pointer alone.
proof fn lemma_same_build_up(a: EncView, b: EncView, f: int, input: InputView)
    requires
        builds_up(a, f, input),
        b.refreshed[f] == a.refreshed[f],
        b.fields[f] == a.fields[f],
        b.refresh_ptr[f] == a.refresh_ptr[f],
    ensures
        builds_up(b, f, input),
{
    assert forall|k: int| 0 <= k < b.refresh_ptr[f] implies #[trigger] b.refreshed[f][k] by {
        assert(a.refreshed[f][k]);
    }
    assert forall|k: int| 0 <= k < LINES_PER_FIELD && #[trigger] b.refreshed[f][k] implies
        still::line_shows(b.fields[f], input, k) by {
        assert(a.refreshed[f][k]);
    }
}

/// A frame of a static scene, coded without omitting a field, goes on building up.
proof fn lemma_frame_builds_up(ev: EncView, frame: FrameView)
    requires
        ev.wf(),
        ev.saved_b1 is None,
        builds_up(ev, 0, source::ingested(frame, ev.mono, 0)),
        builds_up(ev, 1, source::ingested(frame, ev.mono, 1)),
        !encoder::omits_field(encoder::first_field_sent(ev, frame)),
    ensures
        ({
            let done = encoder::frame_sent(ev, frame);
            &&& builds_up(done, 0, source::ingested(frame, ev.mono, 0))
            &&& builds_up(done, 1, source::ingested(frame, ev.mono, 1))
            &&& done.saved_b1 is None
        }),
{
    let counted = EncView {
        stats: EncCounts { frames: ev.stats.frames + 1, ..ev.stats },
        ..ev
    };
    let first = source::ingested(frame, ev.mono, 0);
    let second = source::ingested(frame, ev.mono, 1);
    let half = encoder::first_field_sent(ev, frame);
    source::lemma_ingested_legal(frame, ev.mono, 0);
    source::lemma_ingested_legal(frame, ev.mono, 1);
    lockstep::lemma_frame_sent(ev, frame);
    encoder::lemma_field_sent(counted, 0, first);
    lemma_same_build_up(ev, counted, 0, first);
    static_field_refreshes_its_schedule(counted, 0, first);
    lemma_pointer_kept(counted, 0, first);
    still::lemma_pcm_field(counted, 0, first, 0);
    lemma_same_build_up(ev, half, 1, second);
    encoder::lemma_field_sent(half, 1, second);
    static_field_refreshes_its_schedule(half, 1, second);
    lemma_pointer_kept(half, 1, second);
    still::lemma_pcm_field(half, 1, second, 0);
    lemma_same_build_up(half, encoder::frame_sent(ev, frame), 0, first);
}

/// From the start, a static scene builds up in both fields as long as no field is
/// omitted: `static_field_refreshes_its_schedule` holds of each of its fields.
pub proof fn static_scene_builds_up(bitrate: nat, mono: bool, frame: FrameView, n: nat)
    requires
        still::static_scene(
            encoder::fresh_encoder(bitrate, mono),
            frame,
            n,
        ).stats.fields_omitted == 0,
    ensures
        ({
            let ev = still::static_scene(encoder::fresh_encoder(bitrate, mono), frame, n);
            &&& builds_up(ev, 0, source::ingested(frame, mono, 0))
            &&& builds_up(ev, 1, source::ingested(frame, mono, 1))
            &&& ev.saved_b1 is None
        }),
    decreases n,
{
    let fresh = encoder::fresh_encoder(bitrate, mono);
    if n > 0 {
        let m = (n - 1) as nat;
        let before = still::static_scene(fresh, frame, m);
        lockstep::lemma_encoded_wf(bitrate, mono, Seq::empty());
        still::lemma_static_scene(fresh, frame, m);
        still::lemma_omissions(before, frame);
        static_scene_builds_up(bitrate, mono, frame, m);
        lemma_frame_builds_up(before, frame);
    }
}

} // verus!
