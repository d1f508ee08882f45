//! Which lines are refreshed: PCM lines are scheduled at the start of a field.

use vstd::prelude::*;
use crate::codec::encoder;
use crate::codec::encoder::{EncView, BUFFER_UNITS};
use crate::codec::LINES_PER_FIELD;

verus! {

/// The number of PCM lines from line `l` on.
pub open spec fn pcm_left(plan: Seq<bool>, l: int) -> nat
    decreases LINES_PER_FIELD - l,
{
    if l >= LINES_PER_FIELD {
        0
    } else {
        pcm_left(plan, l + 1) + if plan[l] {
            1nat
        } else {
            0nat
        }
    }
}

/// Marking one more line adds at most one.
proof fn lemma_pcm_left(plan: Seq<bool>, ptr: int, l: int)
    requires
        plan.len() == LINES_PER_FIELD,
        0 <= ptr < LINES_PER_FIELD,
        0 <= l,
    ensures
        pcm_left(plan.update(ptr, true), l) <= pcm_left(plan, l) + 1,
        l > ptr ==> pcm_left(plan.update(ptr, true), l) == pcm_left(plan, l),
        l <= ptr && !plan[ptr] ==> pcm_left(plan.update(ptr, true), l) == pcm_left(plan, l) + 1,
    decreases LINES_PER_FIELD - l,
{
    if l < LINES_PER_FIELD {
        lemma_pcm_left(plan, ptr, l + 1);
    }
}

/// No more lines are picked than the budget allows.
proof fn lemma_picked_count(
    refreshed: Seq<bool>,
    every: bool,
    ptr: int,
    visited: int,
    budget: nat,
    lines: Seq<bool>,
)
    requires
        0 <= ptr < LINES_PER_FIELD,
        lines.len() == LINES_PER_FIELD,
    ensures
        pcm_left(encoder::picked(refreshed, every, ptr, visited, budget, lines).0, 0) <= pcm_left(
            lines,
            0,
        ) + budget,
    decreases LINES_PER_FIELD - visited,
{
    if budget > 0 && visited < LINES_PER_FIELD {
        let take = every || !refreshed[ptr];
        if take {
            lemma_pcm_left(lines, ptr, 0);
        }
        lemma_picked_count(
            refreshed,
            every,
            (ptr + 1) % (LINES_PER_FIELD as int),
            visited + 1,
            if take {
                (budget - 1) as nat
            } else {
                budget
            },
            if take {
                lines.update(ptr, true)
            } else {
                lines
            },
        );
    }
}

proof fn lemma_none_left(l: int)
    requires
        0 <= l,
    ensures
        pcm_left(Seq::new(LINES_PER_FIELD as nat, |i: int| false), l) == 0,
    decreases LINES_PER_FIELD - l,
{
    if l < LINES_PER_FIELD {
        lemma_none_left(l + 1);
    }
}

/// The PCM lines that are scheduled fit into 70 % of the buffer (492_011_520 units;
/// a line takes 17_875_000).
pub proof fn schedule_fits(ev: EncView, f: int)
    requires
        ev.wf_but(1),
        0 <= f < 2,
    ensures
        pcm_left(encoder::scheduled(ev, f).0, 0) == 0 || ev.occupancy + 17_875_000 * pcm_left(
            encoder::scheduled(ev, f).0,
            0,
        ) <= 492_011_520,
{
    let bootstrap = encoder::bootstrapping(ev.refreshed[f]);
    let budget: nat = if bootstrap {
        encoder::bootstrap_budget(ev.occupancy)
    } else if encoder::below(ev.occupancy, encoder::PCM_REFRESH_BELOW as nat) {
        1
    } else {
        0
    };
    let none = Seq::new(LINES_PER_FIELD as nat, |l: int| false);
    assert(0 <= ev.refresh_ptr[f] < LINES_PER_FIELD);
    lemma_picked_count(ev.refreshed[f], !bootstrap, ev.refresh_ptr[f], 0, budget, none);
    lemma_none_left(0);
    let room = 49_201_152_000 - 100 * ev.occupancy;
    if bootstrap && room > 0 {
        assert(100 * encoder::PCM_LINE_BITS * encoder::UNITS_PER_BIT == 1_787_500_000);
        assert(encoder::BOOTSTRAP_FILL_TO * BUFFER_UNITS == 49_201_152_000);
        assert(budget == room / 1_787_500_000);
        assert(1_787_500_000 * budget <= room);
    }
    assert(pcm_left(encoder::scheduled(ev, f).0, 0) <= budget);
}

/// In steady state, one line is scheduled while the buffer is below 45 %, and the
/// next field goes on with the line behind it; above, none is.
pub proof fn steady_refresh_rotates(ev: EncView, f: int, l: int)
    requires
        ev.wf_but(1),
        0 <= f < 2,
        0 <= l < LINES_PER_FIELD,
        !encoder::bootstrapping(ev.refreshed[f]),
    ensures
        ({
            let (lines, next) = encoder::scheduled(ev, f);
            if encoder::below(ev.occupancy, encoder::PCM_REFRESH_BELOW as nat) {
                &&& lines[l] == (l == ev.refresh_ptr[f])
                &&& next == (ev.refresh_ptr[f] + 1) % (LINES_PER_FIELD as int)
            } else {
                &&& !lines[l]
                &&& next == ev.refresh_ptr[f]
            }
        }),
{
    reveal_with_fuel(encoder::picked, 3);
    assert(0 <= ev.refresh_ptr[f] < LINES_PER_FIELD);
}

/// How many lines a walk from `ptr` visits before line `l`.
spec fn steps_to(ptr: int, l: int) -> int {
    if l >= ptr {
        l - ptr
    } else {
        l - ptr + LINES_PER_FIELD
    }
}

/// What a walk over the lines picks: only lines that it may pick, and as many as
/// the budget allows, unless it picks every line ahead that it may pick.
proof fn lemma_picked_lines(
    refreshed: Seq<bool>,
    every: bool,
    ptr: int,
    visited: int,
    budget: nat,
    lines: Seq<bool>,
    l: int,
)
    requires
        0 <= ptr < LINES_PER_FIELD,
        0 <= visited <= LINES_PER_FIELD,
        lines.len() == LINES_PER_FIELD,
        0 <= l < LINES_PER_FIELD,
        forall|k: int|
            0 <= k < LINES_PER_FIELD && steps_to(ptr, k) < LINES_PER_FIELD - visited
                ==> !#[trigger] lines[k],
    ensures
        ({
            let done = encoder::picked(refreshed, every, ptr, visited, budget, lines).0;
            let may = every || !refreshed[l];
            &&& done[l] ==> lines[l] || may
            &&& lines[l] ==> done[l]
            &&& steps_to(ptr, l) < LINES_PER_FIELD - visited && may && !done[l] ==> pcm_left(
                done,
                0,
            ) == pcm_left(lines, 0) + budget
        }),
    decreases LINES_PER_FIELD - visited,
{
    if budget > 0 && visited < LINES_PER_FIELD {
        let take = every || !refreshed[ptr];
        let next = (ptr + 1) % (LINES_PER_FIELD as int);
        let more = if take {
            lines.update(ptr, true)
        } else {
            lines
        };
        assert(next == if ptr + 1 == LINES_PER_FIELD {
            0
        } else {
            ptr + 1
        });
        assert(!lines[ptr]) by {
            assert(steps_to(ptr, ptr) == 0);
        }
        if take {
            lemma_pcm_left(lines, ptr, 0);
        }
        assert forall|k: int|
            0 <= k < LINES_PER_FIELD && steps_to(next, k) < LINES_PER_FIELD - (visited
                + 1) implies !#[trigger] more[k] by {
            assert(k != ptr);
            assert(steps_to(ptr, k) == steps_to(next, k) + 1);
            assert(!lines[k]);
        }
        lemma_picked_lines(
            refreshed,
            every,
            next,
            visited + 1,
            if take {
                (budget - 1) as nat
            } else {
                budget
            },
            more,
            l,
        );
    }
}

/// Some line from line `l` on is scheduled.
pub proof fn lemma_some_planned(plan: Seq<bool>, l: int) -> (k: int)
    requires
        0 <= l <= LINES_PER_FIELD,
        pcm_left(plan, l) > 0,
    ensures
        l <= k < LINES_PER_FIELD,
        plan[k],
    decreases LINES_PER_FIELD - l,
{
    if plan[l] {
        l
    } else {
        lemma_some_planned(plan, l + 1)
    }
}

/// At the start, as many lines are scheduled as the buffer allows: only lines
/// that never were refreshed, and if one of them is left out, then as many as fill the
/// buffer up to 70 %.
pub proof fn bootstrap_schedules_what_fits(ev: EncView, f: int, l: int)
    requires
        ev.wf_but(1),
        0 <= f < 2,
        0 <= l < LINES_PER_FIELD,
        encoder::bootstrapping(ev.refreshed[f]),
    ensures
        ({
            let lines = encoder::scheduled(ev, f).0;
            &&& lines[l] ==> !ev.refreshed[f][l]
            &&& !ev.refreshed[f][l] && !lines[l] ==> pcm_left(lines, 0)
                == encoder::bootstrap_budget(ev.occupancy)
            &&& pcm_left(lines, 0) <= encoder::bootstrap_budget(ev.occupancy)
        }),
{
    let budget = encoder::bootstrap_budget(ev.occupancy);
    let none = Seq::new(LINES_PER_FIELD as nat, |i: int| false);
    assert(0 <= ev.refresh_ptr[f] < LINES_PER_FIELD);
    lemma_none_left(0);
    lemma_picked_count(ev.refreshed[f], false, ev.refresh_ptr[f], 0, budget, none);
    lemma_picked_lines(ev.refreshed[f], false, ev.refresh_ptr[f], 0, budget, none, l);
}

/// A walk that picks a line has picked every line before it that it may pick.
proof fn lemma_picked_order(
    refreshed: Seq<bool>,
    ptr: int,
    visited: int,
    budget: nat,
    lines: Seq<bool>,
    l: int,
    m: int,
)
    requires
        0 <= ptr < LINES_PER_FIELD,
        0 <= visited <= LINES_PER_FIELD,
        lines.len() == LINES_PER_FIELD,
        0 <= l < LINES_PER_FIELD,
        0 <= m < LINES_PER_FIELD,
        steps_to(ptr, l) < steps_to(ptr, m) < LINES_PER_FIELD - visited,
        forall|k: int|
            0 <= k < LINES_PER_FIELD && steps_to(ptr, k) < LINES_PER_FIELD - visited
                ==> !#[trigger] lines[k],
        !refreshed[l],
        encoder::picked(refreshed, false, ptr, visited, budget, lines).0[m],
    ensures
        encoder::picked(refreshed, false, ptr, visited, budget, lines).0[l],
    decreases LINES_PER_FIELD - visited,
{
    assert(!lines[m]);
    if budget > 0 && visited < LINES_PER_FIELD {
        let take = !refreshed[ptr];
        let next = (ptr + 1) % (LINES_PER_FIELD as int);
        let more = if take {
            lines.update(ptr, true)
        } else {
            lines
        };
        let left: nat = if take {
            (budget - 1) as nat
        } else {
            budget
        };
        assert(next == if ptr + 1 == LINES_PER_FIELD {
            0
        } else {
            ptr + 1
        });
        assert forall|k: int|
            0 <= k < LINES_PER_FIELD && steps_to(next, k) < LINES_PER_FIELD - (visited
                + 1) implies !#[trigger] more[k] by {
            assert(k != ptr);
            assert(steps_to(ptr, k) == steps_to(next, k) + 1);
            assert(!lines[k]);
        }
        if ptr == l {
            lemma_picked_lines(refreshed, false, next, visited + 1, left, more, l);
        } else {
            assert(steps_to(ptr, l) == steps_to(next, l) + 1);
            assert(steps_to(ptr, m) == steps_to(next, m) + 1);
            lemma_picked_order(refreshed, next, visited + 1, left, more, l, m);
        }
    }
}

/// At the start, lines are scheduled in rotation from the refresh pointer on: where line
/// `m` is scheduled, so is every line before it in the rotation that was never
/// refreshed. Where one is left out, the scheduled lines fill the buffer up to 70 %
/// (492_011_520 units; a line takes 17_875_000, that is 2500 bits) as far as whole lines
/// can.
pub proof fn bootstrap_goes_in_rotation(ev: EncView, f: int, l: int, m: int)
    requires
        ev.wf_but(1),
        0 <= f < 2,
        0 <= l < 143,
        0 <= m < 143,
        !ev.refreshed[f][l],
    ensures
        ({
            let lines = encoder::scheduled(ev, f).0;
            let ptr = ev.refresh_ptr[f];
            let n = pcm_left(lines, 0) as int;
            &&& lines[m] && (l - ptr) % 143 < (m - ptr) % 143 ==> lines[l]
            &&& lines[m] ==> !ev.refreshed[f][m]
            &&& 0 <= n && (n > 0 ==> 17_875_000 * n <= 492_011_520 - ev.occupancy)
            &&& !lines[l] ==> 492_011_520 - ev.occupancy < 17_875_000 * (n + 1)
        }),
{
    let refreshed = ev.refreshed[f];
    let ptr = ev.refresh_ptr[f];
    assert(0 <= ptr < LINES_PER_FIELD);
    assert(refreshed.len() == LINES_PER_FIELD);
    assert(encoder::bootstrapping(refreshed));
    let budget = encoder::bootstrap_budget(ev.occupancy);
    let none = Seq::new(LINES_PER_FIELD as nat, |i: int| false);
    let lines = encoder::scheduled(ev, f).0;
    assert((l - ptr) % 143 == steps_to(ptr, l));
    assert((m - ptr) % 143 == steps_to(ptr, m));
    if lines[m] && steps_to(ptr, l) < steps_to(ptr, m) {
        lemma_picked_order(refreshed, ptr, 0, budget, none, l, m);
    }
    bootstrap_schedules_what_fits(ev, f, l);
    bootstrap_schedules_what_fits(ev, f, m);
    schedule_fits(ev, f);
    let room = 49_201_152_000 - 100 * ev.occupancy;
    if room > 0 {
        assert(budget == room / 1_787_500_000);
        assert(room < 1_787_500_000 * (budget + 1));
    }
}

/// In steady state, when every line was refreshed, the line at the refresh pointer is
/// scheduled while the buffer is less than 45 % full, and the pointer moves on by one;
/// above, no line is scheduled and the pointer stays.
pub proof fn steady_state_refreshes_below_45_percent(ev: EncView, f: int, l: int)
    requires
        ev.wf_but(1),
        0 <= f < 2,
        0 <= l < 143,
        forall|k: int| 0 <= k < 143 ==> #[trigger] ev.refreshed[f][k],
    ensures
        ({
            let (lines, next) = encoder::scheduled(ev, f);
            let ptr = ev.refresh_ptr[f];
            &&& 100 * ev.occupancy < 45 * 702_873_600 ==> lines[l] == (l == ptr) && next == (ptr
                + 1) % 143
            &&& 100 * ev.occupancy >= 45 * 702_873_600 ==> !lines[l] && next == ptr
        }),
{
    assert(ev.refreshed[f].len() == LINES_PER_FIELD);
    assert(!encoder::bootstrapping(ev.refreshed[f]));
    steady_refresh_rotates(ev, f, l);
}

/// Where a walk stops: behind the last line that it picked, if it had to leave one out.
proof fn lemma_picked_pointer(
    refreshed: Seq<bool>,
    ptr: int,
    visited: int,
    budget: nat,
    lines: Seq<bool>,
    l: int,
    m: int,
)
    requires
        0 <= ptr < LINES_PER_FIELD,
        0 <= visited <= LINES_PER_FIELD,
        lines.len() == LINES_PER_FIELD,
        0 <= l < LINES_PER_FIELD,
        0 <= m < LINES_PER_FIELD,
        steps_to(ptr, l) < LINES_PER_FIELD - visited,
        steps_to(ptr, m) < LINES_PER_FIELD - visited,
        forall|k: int|
            0 <= k < LINES_PER_FIELD && steps_to(ptr, k) < LINES_PER_FIELD - visited
                ==> !#[trigger] lines[k],
        !refreshed[l],
        !encoder::picked(refreshed, false, ptr, visited, budget, lines).0[l],
    ensures
        ({
            let (done, next) = encoder::picked(refreshed, false, ptr, visited, budget, lines);
            let last = if next == 0 {
                LINES_PER_FIELD - 1
            } else {
                next - 1
            };
            &&& 0 <= next < LINES_PER_FIELD
            &&& budget == 0 ==> next == ptr
            &&& budget > 0 ==> done[last] && !lines[last] && steps_to(ptr, last)
                < LINES_PER_FIELD - visited
            &&& budget > 0 && done[m] ==> steps_to(ptr, m) <= steps_to(ptr, last)
        }),
    decreases LINES_PER_FIELD - visited,
{
    assert(!lines[m] && !lines[l]);
    if budget > 0 && visited < LINES_PER_FIELD {
        let take = !refreshed[ptr];
        let next = (ptr + 1) % (LINES_PER_FIELD as int);
        let more = if take {
            lines.update(ptr, true)
        } else {
            lines
        };
        let left: nat = if take {
            (budget - 1) as nat
        } else {
            budget
        };
        assert(next == if ptr + 1 == LINES_PER_FIELD {
            0
        } else {
            ptr + 1
        });
        assert(!lines[ptr]) by {
            assert(steps_to(ptr, ptr) == 0);
        }
        assert forall|k: int|
            0 <= k < LINES_PER_FIELD && steps_to(next, k) < LINES_PER_FIELD - (visited
                + 1) implies !#[trigger] more[k] by {
            assert(k != ptr);
            assert(steps_to(ptr, k) == steps_to(next, k) + 1);
            assert(!lines[k]);
        }
        if take {
            lemma_picked_lines(refreshed, false, next, visited + 1, left, more, ptr);
        }
        assert(l != ptr);
        assert(steps_to(ptr, l) == steps_to(next, l) + 1);
        let n = if m == ptr {
            l
        } else {
            m
        };
        assert(steps_to(ptr, n) == steps_to(next, n) + 1);
        lemma_picked_pointer(refreshed, next, visited + 1, left, more, l, n);
        let (done, stop) = encoder::picked(refreshed, false, ptr, visited, budget, lines);
        let last = if stop == 0 {
            LINES_PER_FIELD - 1
        } else {
            stop - 1
        };
        if left == 0 {
            assert(stop == next);
            assert(last == ptr);
            assert(done == more);
        } else {
            assert(steps_to(ptr, last) == steps_to(next, last) + 1) by {
                assert(last != ptr);
            }
        }
    }
}

/// At the start, the next refresh goes on behind the last line that was scheduled: where
/// a line `l` that was never refreshed had to be left out, the line before the next
/// refresh pointer is scheduled, and no scheduled line comes behind it in the rotation;
/// where no line is scheduled, the pointer stays.
pub proof fn bootstrap_goes_on_behind(ev: EncView, f: int, l: int, m: int)
    requires
        ev.wf_but(1),
        0 <= f < 2,
        0 <= l < 143,
        0 <= m < 143,
        !ev.refreshed[f][l],
        !encoder::scheduled(ev, f).0[l],
    ensures
        ({
            let (lines, next) = encoder::scheduled(ev, f);
            let ptr = ev.refresh_ptr[f];
            let last = (next + 142) % 143;
            &&& 0 <= next < 143
            &&& pcm_left(lines, 0) == 0 ==> next == ptr
            &&& pcm_left(lines, 0) > 0 ==> lines[last]
            &&& lines[m] ==> (m - ptr) % 143 <= (last - ptr) % 143
        }),
{
    let refreshed = ev.refreshed[f];
    let ptr = ev.refresh_ptr[f];
    assert(0 <= ptr < LINES_PER_FIELD);
    assert(refreshed.len() == LINES_PER_FIELD);
    assert(encoder::bootstrapping(refreshed));
    let budget = encoder::bootstrap_budget(ev.occupancy);
    let none = Seq::new(LINES_PER_FIELD as nat, |i: int| false);
    let (lines, next) = encoder::scheduled(ev, f);
    lemma_picked_pointer(refreshed, ptr, 0, budget, none, l, m);
    bootstrap_schedules_what_fits(ev, f, l);
    lemma_none_left(0);
    let last = (next + 142) % 143;
    assert(last == if next == 0 {
        142
    } else {
        next - 1
    });
    assert((m - ptr) % 143 == steps_to(ptr, m));
    assert((last - ptr) % 143 == steps_to(ptr, last));
    if budget == 0 {
        assert(lines == none);
    }
}

} // verus!
