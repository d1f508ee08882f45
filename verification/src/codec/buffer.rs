//! The rate control keeps the transmission buffer within its 96 kbit.
//!
//! Occupancies are counted in units of 1/7150 bit. 97 % of the buffer are
//! 681_787_392 units: above, lines stay empty. Before it drains, the buffer grows
//! by at most
//!   - 18_075_200 units (2528 bits) for a PCM line;
//!   - 343_200 units (48 bits) for an empty line behind a field start code, and
//!     143_000 units (20 bits) behind a line start code;
//!   - 22_922_900 units (3206 bits) for a line of clusters below 65 %;
//!   - 9_409_400 units (1316 bits) for one above, which is subsampled and has no
//!     extra elements.

use vstd::prelude::*;
use crate::codec::dpcm;
use crate::codec::encoder;
use crate::codec::encoder::{EncCounts, EncView, BUFFER_UNITS};
use crate::codec::lockstep;
use crate::codec::refresh;
use crate::codec::LINES_PER_FIELD;
use crate::source;
use crate::source::InputView;
use crate::y4m::FrameView;

verus! {

/// The slowest channel for which the buffer holds, in bit/s.
pub const SLOWEST: u64 = 100_000;

/// The most that the buffer holds before a frame: empty lines fill it up to its
/// size in the course of a field, by `short` units each.
spec fn frame_bound(short: int) -> int {
    BUFFER_UNITS - 343_200 - 142 * short
}

/// The occupancy at its highest while a line is sent, before the buffer drains.
spec fn peak(ev: EncView, f: int, l: int, input: InputView, pcm: bool, nt: Seq<bool>) -> int {
    let header = encoder::start_code(ev, f, l, encoder::subsamples(ev, pcm));
    let code = encoder::line_code(ev, f, l, input, pcm, nt);
    (ev.occupancy + 7150 * (header.len() + code.bits.len())) as int
}

/// How much a line adds to the buffer.
proof fn lemma_line_growth(ev: EncView, f: int, l: int, input: InputView, pcm: bool, nt: Seq<bool>)
    requires
        ev.wf_but(2),
        0 <= f < 2,
        0 <= l < LINES_PER_FIELD,
        input.wf(),
    ensures
        ({
            let next = encoder::line_sent(ev, f, l, input, pcm, nt);
            let top = peak(ev, f, l, input, pcm, nt);
            let growth = top - ev.occupancy;
            &&& pcm ==> growth == encoder::pcm_growth(l)
            &&& growth >= if l == 0 {
                343_200
            } else {
                143_000int
            }
            &&& !pcm && ev.occupancy > 681_787_392 ==> growth <= if l == 0 {
                343_200
            } else {
                143_000int
            }
            &&& !pcm && ev.occupancy < 456_867_840 ==> growth <= 22_922_900
            &&& !pcm && 456_867_840 <= ev.occupancy <= 681_787_392 ==> growth <= if l == 0 {
                9_409_400
            } else {
                9_209_200int
            }
            &&& next.occupancy == if top >= ev.bitrate {
                top - ev.bitrate
            } else {
                0
            }
            &&& next.bitrate == ev.bitrate
            &&& next.stats.max_occupancy == if top > ev.stats.max_occupancy {
                top
            } else {
                ev.stats.max_occupancy as int
            }
        }),
{
    encoder::lemma_line_code(ev, f, l, input, pcm, nt);
    encoder::lemma_start_code(ev, f, l, encoder::subsamples(ev, pcm));
    assert(ev.bitrate * 1 == ev.bitrate);
    if !pcm && !encoder::panics(ev) {
        assert(ev.fields[f].wf()) by {
            assert(ev.fields[0].wf() && ev.fields[1].wf());
        }
        encoder::lemma_moving_line(
            ev.context(f, l, encoder::subsamples(ev, pcm), nt),
            ev.line(f, l),
            input.y[l],
            input.c[l],
            encoder::threshold(ev.occupancy),
            encoder::below(ev.occupancy, encoder::EXTRA_OK_BELOW as nat),
        );
    }
}

/// No line overflows the buffer as long as the 48 bits of a field start code fit,
/// on any channel. A PCM line that would is put off.
pub proof fn no_line_overflows(
    ev: EncView,
    f: int,
    l: int,
    input: InputView,
    planned: bool,
    prev_not_trans: Seq<bool>,
)
    requires
        ev.wf(),
        0 <= f < 2,
        0 <= l < LINES_PER_FIELD,
        input.wf(),
        ev.occupancy + 48 * encoder::UNITS_PER_BIT <= BUFFER_UNITS,
        ev.stats.max_occupancy <= BUFFER_UNITS,
    ensures
        ({
            let pcm = encoder::sends_pcm(ev, f, l, planned);
            encoder::line_sent(ev, f, l, input, pcm, prev_not_trans).stats.max_occupancy
                <= BUFFER_UNITS
        }),
{
    let short = encoder::shortfall(ev.bitrate) as int;
    assert(0 <= short * (142 - l) && 0 <= short * (285 - l)) by (nonlinear_arith)
        requires
            0 <= short,
            0 <= l <= 142,
    ;
    lemma_line_growth(ev, f, l, input, encoder::sends_pcm(ev, f, l, planned), prev_not_trans);
}

/// On a slow channel, even empty lines fill the buffer.
proof fn lemma_lines_fill(
    ev: EncView,
    f: int,
    l: int,
    input: InputView,
    plan: Seq<bool>,
    nt: Seq<bool>,
)
    requires
        ev.wf(),
        0 <= f < 2,
        1 <= l <= LINES_PER_FIELD,
        input.wf(),
        encoder::shortfall(ev.bitrate) > 0,
    ensures
        ({
            let done = encoder::lines_sent(ev, f, l, input, plan, nt);
            let short = encoder::shortfall(ev.bitrate) as int;
            &&& done.bitrate == ev.bitrate
            &&& done.occupancy >= ev.occupancy + short * (LINES_PER_FIELD - l)
            &&& done.stats.max_occupancy >= ev.stats.max_occupancy
            &&& l < LINES_PER_FIELD ==> done.stats.max_occupancy >= ev.occupancy + 143_000 + short
                * (LINES_PER_FIELD - 1 - l)
        }),
    decreases LINES_PER_FIELD - l,
{
    let short = encoder::shortfall(ev.bitrate) as int;
    if l < LINES_PER_FIELD {
        let pcm = encoder::sends_pcm(ev, f, l, plan[l]);
        lemma_line_growth(ev, f, l, input, pcm, nt);
        encoder::lemma_line_sent(ev, f, l, input, pcm, nt);
        let next = encoder::line_sent(ev, f, l, input, pcm, nt);
        assert(short * (143 - l) == short * (143 - (l + 1)) + short) by (nonlinear_arith);
        assert(short * (142 - l) == short * (143 - (l + 1))) by (nonlinear_arith);
        assert(short * (142 - l) == short * (142 - (l + 1)) + short) by (nonlinear_arith);
        if l == 142 {
            assert(short * (142 - l) == 0) by (nonlinear_arith)
                requires
                    l == 142,
            ;
        }
        lemma_lines_fill(
            next,
            f,
            l + 1,
            input,
            plan,
            encoder::line_code(ev, f, l, input, pcm, nt).not_trans,
        );
    } else {
        assert(short * (143 - l) == 0) by (nonlinear_arith)
            requires
                l == 143,
        ;
    }
}

/// A PCM line of field 1 is put off only where lines stay empty, or where sending it
/// would overflow the buffer before the field ends.
pub proof fn put_off_line_would_overflow(
    ev: EncView,
    l: int,
    input: InputView,
    plan: Seq<bool>,
    nt: Seq<bool>,
)
    requires
        ev.wf(),
        0 <= l < LINES_PER_FIELD,
        input.wf(),
        !encoder::panics(ev),
        !encoder::finds_room(ev, 0, l),
    ensures
        ({
            let sent = encoder::line_sent(ev, 0, l, input, true, nt);
            let mask = encoder::line_code(ev, 0, l, input, true, nt).not_trans;
            encoder::lines_sent(sent, 0, l + 1, input, plan, mask).stats.max_occupancy
                > BUFFER_UNITS
        }),
{
    let short = encoder::shortfall(ev.bitrate) as int;
    let sent = encoder::line_sent(ev, 0, l, input, true, nt);
    let mask = encoder::line_code(ev, 0, l, input, true, nt).not_trans;
    lemma_line_growth(ev, 0, l, input, true, nt);
    encoder::lemma_line_sent(ev, 0, l, input, true, nt);
    assert(short * (142 - l) == short * (142 - (l + 1)) + short) by (nonlinear_arith);
    if l == 142 {
        assert(short * (142 - l) == 0) by (nonlinear_arith)
            requires
                l == 142,
        ;
    }
    lemma_lines_fill(sent, 0, l + 1, input, plan, mask);
}

/// A PCM line of field 2 is put off only where lines stay empty, or where sending it
/// would overflow the buffer before the next field 1 ends, whatever that shows.
pub proof fn put_off_line_would_overflow_later(
    ev: EncView,
    l: int,
    input: InputView,
    plan: Seq<bool>,
    nt: Seq<bool>,
    next_input: InputView,
)
    requires
        ev.wf(),
        0 <= l < LINES_PER_FIELD,
        input.wf(),
        next_input.wf(),
        !encoder::panics(ev),
        !encoder::finds_room(ev, 1, l),
    ensures
        ({
            let sent = encoder::line_sent(ev, 1, l, input, true, nt);
            let mask = encoder::line_code(ev, 1, l, input, true, nt).not_trans;
            let done = encoder::lines_sent(sent, 1, l + 1, input, plan, mask);
            encoder::field_sent(done, 0, next_input).stats.max_occupancy > BUFFER_UNITS
        }),
{
    reveal(encoder::field_sent);
    let short = encoder::shortfall(ev.bitrate) as int;
    let sent = encoder::line_sent(ev, 1, l, input, true, nt);
    let mask = encoder::line_code(ev, 1, l, input, true, nt).not_trans;
    lemma_line_growth(ev, 1, l, input, true, nt);
    encoder::lemma_line_sent(ev, 1, l, input, true, nt);
    lemma_lines_fill(sent, 1, l + 1, input, plan, mask);
    encoder::lemma_lines_sent(sent, 1, l + 1, input, plan, mask);
    let done = encoder::lines_sent(sent, 1, l + 1, input, plan, mask);
    let opened = encoder::field_opened(done, 0);
    let next_plan = encoder::scheduled(done, 0).0;
    let none = dpcm::none_omitted();
    let pcm = encoder::sends_pcm(opened, 0, 0, next_plan[0]);
    encoder::lemma_field_opened(done, 0);
    lemma_line_growth(opened, 0, 0, next_input, pcm, none);
    encoder::lemma_line_sent(opened, 0, 0, next_input, pcm, none);
    let first = encoder::line_sent(opened, 0, 0, next_input, pcm, none);
    lemma_lines_fill(
        first,
        0,
        1,
        next_input,
        next_plan,
        encoder::line_code(opened, 0, 0, next_input, pcm, none).not_trans,
    );
    assert(short * (285 - l) == short * (143 - (l + 1)) + 143 * short) by (nonlinear_arith);
    assert(short * 141 == 141 * short) by (nonlinear_arith);
}

/// A bound on the occupancy at line `l` of a field that starts below
/// `frame_bound`.
spec fn line_bound(l: int, short: int) -> int {
    if l == 0 {
        frame_bound(short)
    } else {
        frame_bound(short) + 200_200 + short * l
    }
}

/// A field that starts below `frame_bound` does not overflow the buffer.
proof fn lemma_lines_hold(
    ev: EncView,
    f: int,
    l: int,
    input: InputView,
    plan: Seq<bool>,
    nt: Seq<bool>,
)
    requires
        ev.wf_but(2),
        l > 0 ==> ev.wf(),
        0 <= f < 2,
        0 <= l <= LINES_PER_FIELD,
        input.wf(),
        ev.bitrate >= SLOWEST,
        ev.occupancy <= line_bound(l, encoder::shortfall(ev.bitrate) as int),
        ev.stats.max_occupancy <= BUFFER_UNITS,
    ensures
        ({
            let done = encoder::lines_sent(ev, f, l, input, plan, nt);
            &&& done.occupancy <= line_bound(
                LINES_PER_FIELD as int,
                encoder::shortfall(ev.bitrate) as int,
            )
            &&& done.stats.max_occupancy <= BUFFER_UNITS
        }),
    decreases LINES_PER_FIELD - l,
{
    if l < LINES_PER_FIELD {
        let pcm = encoder::sends_pcm(ev, f, l, plan[l]);
        let short = encoder::shortfall(ev.bitrate) as int;
        lemma_line_growth(ev, f, l, input, pcm, nt);
        encoder::lemma_line_sent(ev, f, l, input, pcm, nt);
        let next = encoder::line_sent(ev, f, l, input, pcm, nt);
        assert(short * (l + 1) == short * l + short) by (nonlinear_arith);
        assert(0 <= short * l <= short * 142) by (nonlinear_arith)
            requires
                0 <= short,
                0 <= l <= 142,
        ;
        assert(short * (142 - l) == short * 142 - short * l) by (nonlinear_arith);
        assert(short * (285 - l) == short * 285 - short * l) by (nonlinear_arith);
        assert(next.occupancy <= line_bound(l + 1, short));
        lemma_lines_hold(
            next,
            f,
            l + 1,
            input,
            plan,
            encoder::line_code(ev, f, l, input, pcm, nt).not_trans,
        );
    }
}

/// How far a field is on its way to a full buffer, in 1/100 units: below
/// 479_800_000 units a line may add more than twice as much as above.
spec fn progress(occupancy: int) -> int {
    if occupancy <= 479_800_000 {
        41 * occupancy
    } else {
        41 * 479_800_000 + 100 * (occupancy - 479_800_000)
    }
}

/// A field 2 that starts below 72 % ends below `frame_bound`: it takes at least 17
/// lines to fill the buffer, and from then on lines are almost empty.
proof fn lemma_lines_settle(
    ev: EncView,
    f: int,
    l: int,
    input: InputView,
    plan: Seq<bool>,
    nt: Seq<bool>,
)
    requires
        ev.wf_but(2),
        l > 0 ==> ev.wf(),
        0 <= f < 2,
        0 <= l <= LINES_PER_FIELD,
        input.wf(),
        ev.bitrate >= SLOWEST,
        f == 1,
        l <= 17 ==> progress(ev.occupancy as int) + 862_000_000 * refresh::pcm_left(plan, l)
            <= 23_730_000_000 + 936_000_000 * l,
        l >= 18 ==> ev.occupancy <= frame_bound(encoder::shortfall(ev.bitrate) as int)
            - encoder::shortfall(ev.bitrate) * (LINES_PER_FIELD - l),
    ensures
        encoder::lines_sent(ev, f, l, input, plan, nt).occupancy <= frame_bound(
            encoder::shortfall(ev.bitrate) as int,
        ),
    decreases LINES_PER_FIELD - l,
{
    if l < LINES_PER_FIELD {
        let pcm = encoder::sends_pcm(ev, f, l, plan[l]);
        let short = encoder::shortfall(ev.bitrate) as int;
        lemma_line_growth(ev, f, l, input, pcm, nt);
        encoder::lemma_line_sent(ev, f, l, input, pcm, nt);
        let next = encoder::line_sent(ev, f, l, input, pcm, nt);
        if l <= 17 {
            assert(ev.occupancy <= 681_787_392);
        }
        if l >= 17 {
            assert(short * (143 - l) == short * (143 - (l + 1)) + short) by (nonlinear_arith);
            assert(short * (285 - l) == short * (143 - (l + 1)) + 143 * short) by (nonlinear_arith);
            assert(0 <= short * (143 - (l + 1)) <= 125 * short) by (nonlinear_arith)
                requires
                    0 <= short,
                    17 <= l <= 142,
            ;
            assert(next.occupancy <= frame_bound(short) - short * (143 - (l + 1)));
        }
        lemma_lines_settle(
            next,
            f,
            l + 1,
            input,
            plan,
            encoder::line_code(ev, f, l, input, pcm, nt).not_trans,
        );
    }
}

/// A field that starts below `frame_bound` does not overflow the buffer; a field 2
/// that starts below 72 % ends below `frame_bound`.
proof fn lemma_field_holds(ev: EncView, f: int, input: InputView)
    requires
        ev.wf_but(1),
        0 <= f < 2,
        input.wf(),
        ev.bitrate >= SLOWEST,
        ev.occupancy <= frame_bound(encoder::shortfall(ev.bitrate) as int),
        ev.stats.max_occupancy <= BUFFER_UNITS,
    ensures
        ({
            let done = encoder::field_sent(ev, f, input);
            let short = encoder::shortfall(ev.bitrate) as int;
            &&& done.occupancy <= frame_bound(short) + 200_200 + 143 * short
            &&& done.stats.max_occupancy <= BUFFER_UNITS
            &&& f == 1 && ev.occupancy <= 506_068_992 ==> done.occupancy <= frame_bound(short)
        }),
{
    reveal(encoder::field_sent);
    let none = dpcm::none_omitted();
    let opened = encoder::field_opened(ev, f);
    let plan = encoder::scheduled(ev, f).0;
    encoder::lemma_field_opened(ev, f);
    lemma_lines_hold(opened, f, 0, input, plan, none);
    if f == 1 && ev.occupancy <= 506_068_992 {
        refresh::schedule_fits(ev, f);
        lemma_lines_settle(opened, f, 0, input, plan, none);
    }
}

/// A frame that starts below `frame_bound` does not overflow the buffer, and
/// ends below `frame_bound`.
proof fn lemma_frame_holds(ev: EncView, frame: FrameView)
    requires
        ev.wf(),
        ev.bitrate >= SLOWEST,
        ev.occupancy <= frame_bound(encoder::shortfall(ev.bitrate) as int),
        ev.stats.max_occupancy <= BUFFER_UNITS,
    ensures
        ({
            let done = encoder::frame_sent(ev, frame);
            &&& done.occupancy <= frame_bound(encoder::shortfall(ev.bitrate) as int)
            &&& done.stats.max_occupancy <= BUFFER_UNITS
        }),
{
    let counted = EncView {
        stats: EncCounts { frames: ev.stats.frames + 1, ..ev.stats },
        ..ev
    };
    let first = source::ingested(frame, ev.mono, 0);
    let second = source::ingested(frame, ev.mono, 1);
    let half = encoder::first_field_sent(ev, frame);
    source::lemma_ingested_legal(frame, ev.mono, 0);
    source::lemma_ingested_legal(frame, ev.mono, 1);
    lockstep::lemma_frame_sent(ev, frame);
    lemma_field_holds(counted, 0, first);
    if encoder::omits_field(half) {
        assert(half.bitrate * 143 >= 14_300_000) by (nonlinear_arith)
            requires
                half.bitrate >= 100_000,
        ;
    } else {
        lemma_field_holds(half, 1, second);
    }
}

/// The transmission buffer never overflows, whatever the frames, for every bitrate
/// of at least 100 kbit/s. (Below, start codes alone may outrun the channel.)
pub proof fn buffer_never_overflows(bitrate: nat, mono: bool, frames: Seq<FrameView>)
    requires
        bitrate >= SLOWEST,
    ensures
        lockstep::encoded(bitrate, mono, frames).stats.max_occupancy <= BUFFER_UNITS,
        lockstep::encoded(bitrate, mono, frames).occupancy <= BUFFER_UNITS,
{
    lemma_encoded_holds(bitrate, mono, frames);
}

proof fn lemma_encoded_holds(bitrate: nat, mono: bool, frames: Seq<FrameView>)
    requires
        bitrate >= SLOWEST,
    ensures
        lockstep::encoded(bitrate, mono, frames).stats.max_occupancy <= BUFFER_UNITS,
        lockstep::encoded(bitrate, mono, frames).occupancy <= frame_bound(
            encoder::shortfall(bitrate) as int,
        ),
    decreases frames.len(),
{
    if frames.len() > 0 {
        let before = frames.drop_last();
        lemma_encoded_holds(bitrate, mono, before);
        lockstep::lemma_encoded_wf(bitrate, mono, before);
        lemma_frame_holds(lockstep::encoded(bitrate, mono, before), frames.last());
    }
}

} // verus!
