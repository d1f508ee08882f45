//! H.120 clause 1 encoder: conditional replenishment + DPCM + VLC.
//!
//! The Recommendation fixes the bitstream and the reconstructions; it
//! deliberately leaves the motion detector, the rate control and the refresh
//! strategy free (§1.4.1.3, Appendix I).

use vstd::prelude::*;
use crate::codec;
use crate::codec::bitio::BitWriter;
use crate::codec::bits;
use crate::codec::clusters;
use crate::codec::clusters::{adjust_parity, detect_clusters};
use crate::codec::coding;
use crate::codec::coding::{LineCode, LineStore, PlaneState, COLOR_ESCAPE, EXTRA_THRESHOLD};
use crate::codec::decoder::fields_of;
use crate::codec::dpcm;
use crate::codec::dpcm::{Cluster, LineContext, Plane};
use crate::codec::tables;
use crate::codec::{
    clamp_c, clamp_y, d_value, interpolate_omitted_field, predict_luma, spec_line_number,
    FieldStore, FieldView, BLANKING, CHROMA_ADDR_BASE, CHROMA_WIDTH, LINES_PER_FIELD,
    LINES_PER_FRAME, WIDTH,
};
use crate::source;
use crate::source::{ingest, FieldInput, InputView};
use crate::y4m::{Frame444, FrameView};

verus! {

/// The video buffer drains 50 × 143 times a second, once for each line: its
/// occupancy is counted in units of 1/7150 bit, of which `bitrate` leave it for
/// each line.
pub const UNITS_PER_BIT: u128 = 7150;

/// The size of the transmission buffer (96 kbit, that is 98_304 bits), in these
/// units.
pub const BUFFER_UNITS: u128 = 702_873_600;

/// Cost of a PCM line: LST + 2 signalling bytes + 256 luma bytes + 52 chroma
/// bytes.
pub const PCM_LINE_BITS: u128 = 2500;

/// Buffer occupancies that govern the rate control, in percent: above the
/// first, lines are subsampled; above the second, field 2 is omitted; above
/// the third, lines stay empty.
pub const SUBSAMPLE_AT: u128 = 55;
pub const FIELD_SKIP_AT: u128 = 72;
pub const PANIC_AT: u128 = 97;
/// Extra elements only exist on subsampled lines: they are allowed at the
/// start of a subsampling region to smooth the transition (§1.4.1.4.1).
pub const EXTRA_OK_BELOW: u128 = 65;
/// Below this occupancy, one PCM line per field refreshes the image.
pub const PCM_REFRESH_BELOW: u128 = 45;
/// PCM lines fill the buffer up to here at the start.
pub const BOOTSTRAP_FILL_TO: u128 = 70;

/// The most that a PCM line adds to the buffer: 2528 bits, behind a field start
/// code.
pub const PCM_GROWTH: u128 = 18_075_200;

/// What an empty line adds to the buffer: the 20 bits of its start code.
pub const EMPTY_GROWTH: u128 = 143_000;

/// The transmitter signals (A bit) that its buffer holds less than 6 kbit.
pub const A_BIT_BELOW: u128 = 43_929_600;

/// No frame takes more bits than this.
pub const MAX_FRAME_BITS: u64 = 1_000_000;

/// The buffer holds more than `percent` of its size.
pub open spec fn above(occupancy: nat, percent: nat) -> bool {
    100 * occupancy > percent * BUFFER_UNITS
}

/// The buffer holds less than `percent` of its size.
pub open spec fn below(occupancy: nat, percent: nat) -> bool {
    100 * occupancy < percent * BUFFER_UNITS
}

/// The threshold of the motion detector: from 4 to 18 levels, in proportion to
/// the occupancy.
pub open spec fn threshold(occupancy: nat) -> int {
    let levels = 4 + (14 * occupancy) / (BUFFER_UNITS as nat);
    if levels > 255 {
        255
    } else {
        levels as int
    }
}

/// How many PCM lines fill the buffer up to 70 %.
pub open spec fn bootstrap_budget(occupancy: nat) -> nat {
    if 100 * occupancy >= BOOTSTRAP_FILL_TO * BUFFER_UNITS {
        0
    } else {
        ((BOOTSTRAP_FILL_TO * BUFFER_UNITS - 100 * occupancy) / (100 * PCM_LINE_BITS
            * UNITS_PER_BIT)) as nat
    }
}

/// What is left of an occupancy after `slots` line periods.
pub open spec fn drained(occupancy: nat, bitrate: nat, slots: nat) -> nat {
    if occupancy >= bitrate * slots {
        (occupancy - bitrate * slots) as nat
    } else {
        0
    }
}

/// How an encoder is set up.
pub struct EncoderConfig {
    /// Drain rate of the virtual buffer, in bit/s.
    pub bitrate: u64,
    /// Neutral chrominance (monochrome image, stream always in color format).
    pub mono: bool,
}

/// What an encoder has sent.
#[derive(Debug, Clone, Copy)]
pub struct EncStats {
    pub frames: u64,
    pub fields_coded: u64,
    pub fields_omitted: u64,
    pub pcm_lines: u64,
    pub empty_lines: u64,
    pub subsampled_lines: u64,
    pub luma_clusters: u64,
    pub chroma_clusters: u64,
    pub extra_elements: u64,
    pub panic_lines: u64,
    /// Peak occupancy of the buffer, in units of 1/7150 bit.
    pub max_occupancy: u128,
}

/// The counters of an encoder.
pub struct EncCounts {
    pub frames: nat,
    pub fields_coded: nat,
    pub fields_omitted: nat,
    pub pcm_lines: nat,
    pub empty_lines: nat,
    pub subsampled_lines: nat,
    pub luma_clusters: nat,
    pub chroma_clusters: nat,
    pub extra_elements: nat,
    pub panic_lines: nat,
    pub max_occupancy: nat,
}

impl EncCounts {
    /// No counter exceeds `n`.
    pub open spec fn within(self, n: int) -> bool {
        &&& self.frames <= n
        &&& self.fields_omitted <= n
        &&& self.fields_coded <= n
        &&& self.pcm_lines <= n
        &&& self.empty_lines <= n
        &&& self.subsampled_lines <= n
        &&& self.luma_clusters <= n
        &&& self.chroma_clusters <= n
        &&& self.extra_elements <= n
        &&& self.panic_lines <= n
    }
}

impl View for EncStats {
    type V = EncCounts;

    open spec fn view(&self) -> EncCounts {
        EncCounts {
            frames: self.frames as nat,
            fields_coded: self.fields_coded as nat,
            fields_omitted: self.fields_omitted as nat,
            pcm_lines: self.pcm_lines as nat,
            empty_lines: self.empty_lines as nat,
            subsampled_lines: self.subsampled_lines as nat,
            luma_clusters: self.luma_clusters as nat,
            chroma_clusters: self.chroma_clusters as nat,
            extra_elements: self.extra_elements as nat,
            panic_lines: self.panic_lines as nat,
            max_occupancy: self.max_occupancy as nat,
        }
    }
}

/// All counters at zero.
pub open spec fn no_counts() -> EncCounts {
    EncCounts {
        frames: 0,
        fields_coded: 0,
        fields_omitted: 0,
        pcm_lines: 0,
        empty_lines: 0,
        subsampled_lines: 0,
        luma_clusters: 0,
        chroma_clusters: 0,
        extra_elements: 0,
        panic_lines: 0,
        max_occupancy: 0,
    }
}

impl Default for EncStats {
    fn default() -> (stats: Self)
        ensures
            stats@ == no_counts(),
    {
        EncStats {
            frames: 0,
            fields_coded: 0,
            fields_omitted: 0,
            pcm_lines: 0,
            empty_lines: 0,
            subsampled_lines: 0,
            luma_clusters: 0,
            chroma_clusters: 0,
            extra_elements: 0,
            panic_lines: 0,
            max_occupancy: 0,
        }
    }
}

/// The state of an encoder.
#[verifier::ext_equal]
pub struct EncView {
    pub bitrate: nat,
    pub mono: bool,
    /// The bits written so far.
    pub bits: Seq<bool>,
    /// The two reconstructed fields.
    pub fields: Seq<FieldView>,
    /// Occupancy of the virtual transmission buffer, in units of 1/7150 bit.
    pub occupancy: nat,
    /// For each field, the line at which the next refresh starts.
    pub refresh_ptr: Seq<int>,
    /// For each field, the lines that were refreshed at least once.
    pub refreshed: Seq<Seq<bool>>,
    /// Field 1 (B1), if the field 2 behind it was omitted.
    pub saved_b1: Option<FieldView>,
    pub stats: EncCounts,
}

impl EncView {
    /// Line `l` of field `f` as it is stored.
    pub open spec fn line(self, f: int, l: int) -> LineStore {
        LineStore {
            y: self.fields[f].y[l],
            c: self.fields[f].c[l],
            y_moving: self.fields[f].y_moving[l],
            c_moving: self.fields[f].c_moving[l],
        }
    }

    /// What line `l` of field `f` is coded from.
    pub open spec fn context(
        self,
        f: int,
        l: int,
        subsampled: bool,
        prev_not_trans: Seq<bool>,
    ) -> LineContext {
        LineContext {
            prev: if l > 0 {
                Some(self.fields[f].y[l - 1])
            } else {
                None
            },
            prev_not_trans,
            parity: codec::line_number(f, l) % 2,
            subsampled,
        }
    }

    /// The state with more bits written.
    pub open spec fn sent(self, more: Seq<bool>) -> EncView {
        EncView { bits: self.bits + more, ..self }
    }

    /// The state with line `l` of field `f` coded: its bits written, its
    /// reconstruction stored, its clusters counted.
    pub open spec fn with_code(self, f: int, l: int, code: LineCode) -> EncView {
        let field = self.fields[f];
        EncView {
            bits: self.bits + code.bits,
            fields: self.fields.update(
                f,
                FieldView {
                    y: field.y.update(l, code.y),
                    c: field.c.update(l, code.c),
                    y_moving: field.y_moving.update(l, code.y_moving),
                    c_moving: field.c_moving.update(l, code.c_moving),
                },
            ),
            stats: EncCounts {
                luma_clusters: self.stats.luma_clusters + code.luma_clusters,
                chroma_clusters: self.stats.chroma_clusters + code.chroma_clusters,
                extra_elements: self.stats.extra_elements + code.extras,
                ..self.stats
            },
            ..self
        }
    }

    /// The state with `n` bits put into the transmission buffer.
    pub open spec fn charged(self, n: nat) -> EncView {
        let occupancy = (self.occupancy + n * UNITS_PER_BIT) as nat;
        EncView {
            occupancy,
            stats: EncCounts {
                max_occupancy: if occupancy > self.stats.max_occupancy {
                    occupancy
                } else {
                    self.stats.max_occupancy
                },
                ..self.stats
            },
            ..self
        }
    }

    /// The state after `slots` line periods.
    pub open spec fn drained(self, slots: nat) -> EncView {
        EncView { occupancy: drained(self.occupancy, self.bitrate, slots), ..self }
    }

    /// The fields are whole, and no count runs ahead of the bits written.
    pub open spec fn wf(self) -> bool {
        self.wf_but(0)
    }

    /// The fields are whole, and no count is more than `slack` ahead of the bits
    /// written.
    pub open spec fn wf_but(self, slack: int) -> bool {
        &&& self.fields.len() == 2
        &&& self.fields[0].wf()
        &&& self.fields[1].wf()
        &&& self.refresh_ptr.len() == 2
        &&& self.refreshed.len() == 2
        &&& forall|f: int| 0 <= f < 2 ==> 0 <= #[trigger] self.refresh_ptr[f] < LINES_PER_FIELD
        &&& forall|f: int| 0 <= f < 2 ==> (#[trigger] self.refreshed[f]).len() == LINES_PER_FIELD
        &&& self.saved_b1 matches Some(b1) ==> b1.wf()
        &&& self.occupancy <= UNITS_PER_BIT * self.bits.len()
        &&& self.stats.within(self.bits.len() + slack)
    }
}

/// The lines picked for PCM refresh from line `ptr` on: `budget` lines in
/// rotation (every line, or only those never refreshed), and the line at which
/// the next refresh starts.
pub open spec fn picked(
    refreshed: Seq<bool>,
    every: bool,
    ptr: int,
    visited: int,
    budget: nat,
    lines: Seq<bool>,
) -> (Seq<bool>, int)
    decreases LINES_PER_FIELD - visited,
{
    if budget == 0 || visited >= LINES_PER_FIELD {
        (lines, ptr)
    } else {
        let take = every || !refreshed[ptr];
        picked(
            refreshed,
            every,
            (ptr + 1) % (LINES_PER_FIELD as int),
            visited + 1,
            if take {
                (budget - 1) as nat
            } else {
                budget
            },
            if take {
                lines.update(ptr, true)
            } else {
                lines
            },
        )
    }
}

/// Some line of the field was never refreshed.
pub open spec fn bootstrapping(refreshed: Seq<bool>) -> bool {
    exists|l: int| 0 <= l < refreshed.len() && !#[trigger] refreshed[l]
}

/// The PCM lines of field `f` and the line at which the next refresh starts: as
/// many never refreshed lines as the buffer allows, or else one line in
/// rotation when the buffer is low.
pub open spec fn scheduled(ev: EncView, f: int) -> (Seq<bool>, int) {
    let refreshed = ev.refreshed[f];
    let bootstrap = bootstrapping(refreshed);
    picked(
        refreshed,
        !bootstrap,
        ev.refresh_ptr[f],
        0,
        if bootstrap {
            bootstrap_budget(ev.occupancy)
        } else if below(ev.occupancy, PCM_REFRESH_BELOW as nat) {
            1
        } else {
            0
        },
        Seq::new(LINES_PER_FIELD as nat, |l: int| false),
    )
}

/// The buffer is almost full: lines stay empty (the image freezes).
pub open spec fn panics(ev: EncView) -> bool {
    above(ev.occupancy, PANIC_AT as nat)
}

/// What an empty line adds to the buffer beyond what the channel drains.
pub open spec fn shortfall(bitrate: nat) -> nat {
    if bitrate < EMPTY_GROWTH {
        (EMPTY_GROWTH - bitrate) as nat
    } else {
        0
    }
}

/// What line `l` adds to the buffer as a PCM line: 2480 bits behind its start code.
pub open spec fn pcm_growth(l: int) -> nat {
    if l == 0 {
        PCM_GROWTH as nat
    } else {
        (PCM_LINE_BITS * UNITS_PER_BIT) as nat
    }
}

/// What the lines behind line `l` of field `f` add to the buffer at the least, beyond
/// what a slow channel drains: the start codes of the rest of the field, and behind
/// field 2 those of the next field 1. (Behind a field 1 that fills the buffer, field 2
/// is omitted and the buffer drains.)
pub open spec fn least_behind(bitrate: nat, f: int, l: int) -> int {
    let short = shortfall(bitrate) as int;
    if short == 0 {
        0
    } else if f == 0 {
        short * (LINES_PER_FIELD - 1 - l)
    } else {
        short * (LINES_PER_FRAME - 1 - l) + 28 * UNITS_PER_BIT
    }
}

/// The buffer has room for line `l` of field `f` as a PCM line: lines do not stay
/// empty, and neither the line nor the empty lines behind it overflow the buffer.
pub open spec fn finds_room(ev: EncView, f: int, l: int) -> bool {
    &&& !panics(ev)
    &&& ev.occupancy + pcm_growth(l) + least_behind(ev.bitrate, f, l) <= BUFFER_UNITS
}

/// A scheduled PCM line is sent where the buffer has room for it. One that is put
/// off is coded like any other line.
pub open spec fn sends_pcm(ev: EncView, f: int, l: int, planned: bool) -> bool {
    planned && finds_room(ev, f, l)
}

/// A line is subsampled if it is neither a PCM line nor empty for want of room,
/// and the buffer fills up.
pub open spec fn subsamples(ev: EncView, pcm: bool) -> bool {
    !pcm && !panics(ev) && above(ev.occupancy, SUBSAMPLE_AT as nat)
}

/// The start code of line `l` of field `f`.
pub open spec fn start_code(ev: EncView, f: int, l: int, subsampled: bool) -> Seq<bool> {
    if l == 0 {
        coding::fst_bits(f, ev.occupancy < A_BIT_BELOW, subsampled)
    } else {
        coding::lst_bits(subsampled, codec::line_number(f, l))
    }
}

/// Line `l` of field `f`, coded.
pub open spec fn line_code(
    ev: EncView,
    f: int,
    l: int,
    input: InputView,
    pcm: bool,
    prev_not_trans: Seq<bool>,
) -> LineCode {
    if pcm {
        coding::pcm_line(input.y[l], input.c[l])
    } else if panics(ev) {
        coding::empty_line(ev.line(f, l))
    } else {
        coding::moving_line(
            ev.context(f, l, subsamples(ev, pcm), prev_not_trans),
            ev.line(f, l),
            input.y[l],
            input.c[l],
            threshold(ev.occupancy),
            below(ev.occupancy, EXTRA_OK_BELOW as nat),
        )
    }
}

/// The state with a line of one kind or another counted.
pub open spec fn line_counted(
    ev: EncView,
    f: int,
    l: int,
    pcm: bool,
    panic: bool,
    sub: bool,
    code: LineCode,
) -> EncView {
    let empty = code.luma_clusters == 0 && code.chroma_clusters == 0;
    EncView {
        refreshed: if pcm {
            ev.refreshed.update(f, ev.refreshed[f].update(l, true))
        } else {
            ev.refreshed
        },
        stats: EncCounts {
            pcm_lines: ev.stats.pcm_lines + if pcm {
                1nat
            } else {
                0nat
            },
            panic_lines: ev.stats.panic_lines + if !pcm && panic {
                1nat
            } else {
                0nat
            },
            empty_lines: ev.stats.empty_lines + if !pcm && empty {
                1nat
            } else {
                0nat
            },
            subsampled_lines: ev.stats.subsampled_lines + if sub && !empty {
                1nat
            } else {
                0nat
            },
            ..ev.stats
        },
        ..ev
    }
}

/// Line `l` of field `f` sent: its start code and its contents, charged to the
/// buffer, which then drains for one line.
pub open spec fn line_sent(
    ev: EncView,
    f: int,
    l: int,
    input: InputView,
    pcm: bool,
    prev_not_trans: Seq<bool>,
) -> EncView {
    let sub = subsamples(ev, pcm);
    let header = start_code(ev, f, l, sub);
    let code = line_code(ev, f, l, input, pcm, prev_not_trans);
    line_counted(ev.sent(header).with_code(f, l, code), f, l, pcm, panics(ev), sub, code).charged(
        header.len() + code.bits.len(),
    ).drained(1)
}

/// The lines of field `f` from line `l` on.
pub open spec fn lines_sent(
    ev: EncView,
    f: int,
    l: int,
    input: InputView,
    pcm_lines: Seq<bool>,
    prev_not_trans: Seq<bool>,
) -> EncView
    decreases LINES_PER_FIELD - l,
{
    if l >= LINES_PER_FIELD {
        ev
    } else {
        lines_sent(
            line_sent(ev, f, l, input, sends_pcm(ev, f, l, pcm_lines[l]), prev_not_trans),
            f,
            l + 1,
            input,
            pcm_lines,
            line_code(ev, f, l, input, sends_pcm(ev, f, l, pcm_lines[l]), prev_not_trans).not_trans,
        )
    }
}

/// Field `f` about to be coded: nothing moves yet, its PCM lines are scheduled.
pub open spec fn field_opened(ev: EncView, f: int) -> EncView {
    EncView {
        fields: ev.fields.update(f, ev.fields[f].at_rest()),
        refresh_ptr: ev.refresh_ptr.update(f, scheduled(ev, f).1),
        stats: EncCounts { fields_coded: ev.stats.fields_coded + 1, ..ev.stats },
        ..ev
    }
}

/// Field `f` coded.
#[verifier::opaque]
pub open spec fn field_sent(ev: EncView, f: int, input: InputView) -> EncView {
    lines_sent(field_opened(ev, f), f, 0, input, scheduled(ev, f).0, dpcm::none_omitted())
}

/// Field 1 of a frame coded, and the field 2 before it interpolated if it was
/// omitted: the decoder does so when it receives this field 1 (§1.4.1.4.2).
pub open spec fn first_field_sent(ev: EncView, frame: FrameView) -> EncView {
    let counted = EncView {
        stats: EncCounts { frames: ev.stats.frames + 1, ..ev.stats },
        ..ev
    };
    let sent = field_sent(counted, 0, source::ingested(frame, ev.mono, 0));
    match ev.saved_b1 {
        Some(b1) => EncView {
            fields: sent.fields.update(
                1,
                codec::interpolated(sent.fields[1], 1, b1, sent.fields[0]),
            ),
            saved_b1: None,
            ..sent
        },
        None => sent,
    }
}

/// Field 2 of a frame is omitted when the buffer is too full.
pub open spec fn omits_field(ev: EncView) -> bool {
    above(ev.occupancy, FIELD_SKIP_AT as nat)
}

/// A frame coded: field 1, then field 2 unless the buffer is too full for it.
/// Where field 2 is omitted nothing is sent; the next FST-1 (two FSTs with the
/// same number) tells the decoder (§1.5.2.2).
pub open spec fn frame_sent(ev: EncView, frame: FrameView) -> EncView {
    let half = first_field_sent(ev, frame);
    if omits_field(half) {
        EncView {
            saved_b1: Some(half.fields[0]),
            stats: EncCounts { fields_omitted: half.stats.fields_omitted + 1, ..half.stats },
            ..half
        }.drained(LINES_PER_FIELD as nat)
    } else {
        field_sent(half, 1, source::ingested(frame, ev.mono, 1))
    }
}

/// An encoder that has sent nothing yet.
pub open spec fn fresh_encoder(bitrate: nat, mono: bool) -> EncView {
    EncView {
        bitrate,
        mono,
        bits: Seq::empty(),
        fields: seq![codec::blank_field(), codec::blank_field()],
        occupancy: 0,
        refresh_ptr: seq![0, 0],
        refreshed: seq![
            Seq::new(LINES_PER_FIELD as nat, |l: int| false),
            Seq::new(LINES_PER_FIELD as nat, |l: int| false),
        ],
        saved_b1: None,
        stats: no_counts(),
    }
}

/// What an encoder works on.
pub struct EncoderState {
    cfg: EncoderConfig,
    w: BitWriter,
    store: [FieldStore; 2],
    /// Occupancy of the virtual transmission buffer, §1.5.1.
    occupancy: u128,
    /// Cyclic refresh pointer per field.
    refresh_ptr: [usize; 2],
    /// Lines never refreshed (decoder bootstrap).
    refreshed: [Vec<bool>; 2],
    /// Snapshot of field 1 (B1) when the previous field 2 was omitted.
    saved_b1: Option<FieldStore>,
}

impl EncoderState {
    /// The state of an encoder that has counted nothing.
    pub closed spec fn uncounted(&self) -> EncView {
        EncView {
            bitrate: self.cfg.bitrate as nat,
            mono: self.cfg.mono,
            bits: self.w@,
            fields: fields_of(self.store),
            occupancy: self.occupancy as nat,
            refresh_ptr: Seq::new(2, |f: int| self.refresh_ptr[f] as int),
            refreshed: Seq::new(2, |f: int| self.refreshed[f]@),
            saved_b1: match self.saved_b1 {
                Some(b1) => Some(b1@),
                None => None,
            },
            stats: no_counts(),
        }
    }
}

/// Encodes frames into a stream.
pub struct Encoder {
    pub state: EncoderState,
    pub stats: EncStats,
}

impl View for Encoder {
    type V = EncView;

    open spec fn view(&self) -> EncView {
        EncView { stats: self.stats@, ..self.state.uncounted() }
    }
}

/// The bits of a start code.
pub proof fn lemma_start_code(ev: EncView, f: int, l: int, subsampled: bool)
    ensures
        start_code(ev, f, l, subsampled).len() == if l == 0 {
            48
        } else {
            20int
        },
{
    bits::lemma_bits_of_len(1, 13);
    bits::lemma_bits_of_len(7, 3);
    bits::lemma_bits_of_len(0, 3);
    bits::lemma_bits_of_len(0, 4);
    bits::lemma_bits_of_len(3, 2);
    bits::lemma_bits_of_len(8, 16);
    bits::lemma_bits_of_len((codec::line_number(f, l) % 8) as nat, 3);
}

/// The clusters of a line take at most 3158 bits, at least one for each
/// cluster and each extra element.
pub proof fn lemma_moving_line(
    ctx: LineContext,
    store: LineStore,
    y_in: Seq<u8>,
    c_in: Seq<u8>,
    thr: int,
    extra_ok: bool,
)
    requires
        0 <= ctx.parity < 2,
        store.y.len() == WIDTH,
        store.c.len() == CHROMA_WIDTH,
        store.y_moving.len() == WIDTH,
        store.c_moving.len() == CHROMA_WIDTH,
    ensures
        ({
            let code = coding::moving_line(ctx, store, y_in, c_in, thr, extra_ok);
            &&& code.bits.len() <= 3158
            &&& ctx.subsampled && !extra_ok ==> code.bits.len() <= 1268
            &&& code.luma_clusters <= code.bits.len()
            &&& code.chroma_clusters <= code.bits.len()
            &&& code.extras <= code.bits.len()
            &&& code.y.len() == WIDTH
            &&& code.c.len() == CHROMA_WIDTH
            &&& code.y_moving.len() == WIDTH
            &&& code.c_moving.len() == CHROMA_WIDTH
            &&& code.not_trans.len() == WIDTH
        }),
{
    reveal(coding::moving_line);
    let y_spans = coding::luma_spans(ctx, y_in, store.y, thr);
    let c_spans = coding::chroma_spans(ctx, c_in, store.c, thr);
    coding::lemma_spans_codable(ctx, y_in, c_in, store.y, store.c, thr);
    coding::lemma_clusters_code(
        ctx.luma(),
        y_spans,
        0,
        PlaneState {
            line: store.y,
            not_trans: dpcm::none_omitted(),
            moving: store.y_moving,
            extras: 0,
        },
        y_in,
        extra_ok,
        c_spans.len() > 0,
    );
    coding::lemma_clusters_code(
        ctx.chroma(),
        c_spans,
        0,
        PlaneState {
            line: store.c,
            not_trans: dpcm::none_omitted(),
            moving: store.c_moving,
            extras: 0,
        },
        c_in,
        extra_ok,
        false,
    );
    bits::lemma_bits_of_len(COLOR_ESCAPE as nat, 8);
}

/// The shape of a coded line.
pub proof fn lemma_line_code(
    ev: EncView,
    f: int,
    l: int,
    input: InputView,
    pcm: bool,
    prev_not_trans: Seq<bool>,
)
    requires
        ev.wf_but(2),
        0 <= f < 2,
        0 <= l < LINES_PER_FIELD,
        input.wf(),
    ensures
        ({
            let code = line_code(ev, f, l, input, pcm, prev_not_trans);
            &&& code.bits.len() <= 3158
            &&& pcm ==> code.bits.len() == 2480
            &&& code.luma_clusters <= code.bits.len()
            &&& code.chroma_clusters <= code.bits.len()
            &&& code.extras <= code.bits.len()
            &&& code.y.len() == WIDTH
            &&& code.c.len() == CHROMA_WIDTH
            &&& code.y_moving.len() == WIDTH
            &&& code.c_moving.len() == CHROMA_WIDTH
            &&& code.not_trans.len() == WIDTH
        }),
{
    if pcm {
        assert(coding::pcm_bytes(input.y[l], input.c[l]).len() == 310);
    } else {
        assert(ev.fields[f].wf());
        lemma_moving_line(
            ev.context(f, l, subsamples(ev, pcm), prev_not_trans),
            ev.line(f, l),
            input.y[l],
            input.c[l],
            threshold(ev.occupancy),
            below(ev.occupancy, EXTRA_OK_BELOW as nat),
        );
    }
}

/// Sending a line keeps the state whole, and takes at most 3300 bits.
pub proof fn lemma_line_sent(
    ev: EncView,
    f: int,
    l: int,
    input: InputView,
    pcm: bool,
    prev_not_trans: Seq<bool>,
)
    requires
        ev.wf_but(2),
        0 <= f < 2,
        0 <= l < LINES_PER_FIELD,
        input.wf(),
    ensures
        ({
            let next = line_sent(ev, f, l, input, pcm, prev_not_trans);
            let code = line_code(ev, f, l, input, pcm, prev_not_trans);
            let header = start_code(ev, f, l, subsamples(ev, pcm));
            &&& next.wf()
            &&& next.bits == ev.bits + header + code.bits
            &&& ev.bits.len() + 20 <= next.bits.len() <= ev.bits.len() + 3300
            &&& code.not_trans.len() == WIDTH
        }),
{
    lemma_line_code(ev, f, l, input, pcm, prev_not_trans);
    lemma_start_code(ev, f, l, subsamples(ev, pcm));
    let next = line_sent(ev, f, l, input, pcm, prev_not_trans);
    assert(ev.fields[0].wf() && ev.fields[1].wf());
    assert(next.fields[f].wf());
}

/// What coding lines leaves as it is.
pub open spec fn same_but_lines(a: EncView, b: EncView, f: int) -> bool {
    &&& b.bitrate == a.bitrate
    &&& b.mono == a.mono
    &&& b.saved_b1 == a.saved_b1
    &&& b.fields[1 - f] == a.fields[1 - f]
    &&& b.stats.frames == a.stats.frames
    &&& b.stats.fields_coded == a.stats.fields_coded
    &&& b.stats.fields_omitted == a.stats.fields_omitted
}

/// Coding lines keeps the state whole, takes at most 3300 bits for each, and
/// touches no other field.
pub proof fn lemma_lines_sent(
    ev: EncView,
    f: int,
    l: int,
    input: InputView,
    pcm_lines: Seq<bool>,
    prev_not_trans: Seq<bool>,
)
    requires
        ev.wf_but(2),
        l > 0 ==> ev.wf(),
        0 <= f < 2,
        0 <= l <= LINES_PER_FIELD,
        input.wf(),
    ensures
        ({
            let done = lines_sent(ev, f, l, input, pcm_lines, prev_not_trans);
            &&& done.wf()
            &&& same_but_lines(ev, done, f)
            &&& ev.bits.len() + 20 * (LINES_PER_FIELD - l) <= done.bits.len() <= ev.bits.len()
                + 3300 * (LINES_PER_FIELD - l)
        }),
    decreases LINES_PER_FIELD - l,
{
    if l < LINES_PER_FIELD {
        let pcm = sends_pcm(ev, f, l, pcm_lines[l]);
        lemma_line_sent(ev, f, l, input, pcm, prev_not_trans);
        let next = line_sent(ev, f, l, input, pcm, prev_not_trans);
        assert(same_but_lines(ev, next, f));
        lemma_lines_sent(
            next,
            f,
            l + 1,
            input,
            pcm_lines,
            line_code(ev, f, l, input, pcm, prev_not_trans).not_trans,
        );
    }
}

/// The refresh pointer stays on the field.
pub proof fn lemma_picked(
    refreshed: Seq<bool>,
    every: bool,
    ptr: int,
    visited: int,
    budget: nat,
    lines: Seq<bool>,
)
    requires
        0 <= ptr < LINES_PER_FIELD,
        lines.len() == LINES_PER_FIELD,
    ensures
        0 <= picked(refreshed, every, ptr, visited, budget, lines).1 < LINES_PER_FIELD,
        picked(refreshed, every, ptr, visited, budget, lines).0.len() == LINES_PER_FIELD,
    decreases LINES_PER_FIELD - visited,
{
    if budget > 0 && visited < LINES_PER_FIELD {
        let take = every || !refreshed[ptr];
        lemma_picked(
            refreshed,
            every,
            (ptr + 1) % (LINES_PER_FIELD as int),
            visited + 1,
            if take {
                (budget - 1) as nat
            } else {
                budget
            },
            if take {
                lines.update(ptr, true)
            } else {
                lines
            },
        );
    }
}

/// A field about to be coded is whole.
pub proof fn lemma_field_opened(ev: EncView, f: int)
    requires
        ev.wf_but(1),
        0 <= f < 2,
    ensures
        field_opened(ev, f).wf_but(2),
        scheduled(ev, f).0.len() == LINES_PER_FIELD,
{
    assert(0 <= ev.refresh_ptr[f] < LINES_PER_FIELD);
    let bootstrap = bootstrapping(ev.refreshed[f]);
    lemma_picked(
        ev.refreshed[f],
        !bootstrap,
        ev.refresh_ptr[f],
        0,
        if bootstrap {
            bootstrap_budget(ev.occupancy)
        } else if below(ev.occupancy, PCM_REFRESH_BELOW as nat) {
            1
        } else {
            0
        },
        Seq::new(LINES_PER_FIELD as nat, |l: int| false),
    );
    assert(ev.fields[0].wf() && ev.fields[1].wf());
    assert(ev.fields[f].at_rest().wf());
}

/// Coding a field keeps the state whole, and touches no other field.
pub proof fn lemma_field_sent(ev: EncView, f: int, input: InputView)
    requires
        ev.wf_but(1),
        0 <= f < 2,
        input.wf(),
    ensures
        ({
            let done = field_sent(ev, f, input);
            &&& done.wf()
            &&& done.bitrate == ev.bitrate
            &&& done.mono == ev.mono
            &&& done.saved_b1 == ev.saved_b1
            &&& done.fields[1 - f] == ev.fields[1 - f]
            &&& done.stats.frames == ev.stats.frames
            &&& done.stats.fields_coded == ev.stats.fields_coded + 1
            &&& done.stats.fields_omitted == ev.stats.fields_omitted
            &&& ev.bits.len() + 2860 <= done.bits.len() <= ev.bits.len() + 471_900
        }),
{
    reveal(field_sent);
    lemma_field_opened(ev, f);
    lemma_lines_sent(
        field_opened(ev, f),
        f,
        0,
        input,
        scheduled(ev, f).0,
        dpcm::none_omitted(),
    );
}

impl Encoder {
    /// The writer counts its bits.
    pub closed spec fn counting(&self) -> bool {
        self.state.w.wf()
    }

    /// The encoder is between two frames.
    pub open spec fn wf(&self) -> bool {
        self.counting() && self@.wf()
    }

    /// An encoder that has sent nothing yet.
    pub fn new(cfg: EncoderConfig) -> (enc: Self)
        ensures
            enc.wf(),
            enc@ == fresh_encoder(cfg.bitrate as nat, cfg.mono),
    {
        let enc = Encoder {
            state: EncoderState {
                cfg,
                w: BitWriter::new(),
                store: [FieldStore::new(), FieldStore::new()],
                occupancy: 0,
                refresh_ptr: [0, 0],
                refreshed: [vec![false; LINES_PER_FIELD], vec![false; LINES_PER_FIELD]],
                saved_b1: None,
            },
            stats: EncStats::default(),
        };
        proof {
            let fresh = fresh_encoder(cfg.bitrate as nat, cfg.mono);
            assert(enc@.fields =~= fresh.fields);
            assert(enc@.refresh_ptr =~= fresh.refresh_ptr);
            assert(enc@.refreshed[0] =~= fresh.refreshed[0]);
            assert(enc@.refreshed[1] =~= fresh.refreshed[1]);
            assert(enc@.refreshed =~= fresh.refreshed);
            assert(enc@ =~= fresh);
        }
        enc
    }

    /// The buffer holds more than `percent` of its size.
    fn above(&self, percent: u128) -> (yes: bool)
        requires
            self@.wf_but(2),
            self@.bits.len() <= u64::MAX,
            percent <= 100,
        ensures
            yes == above(self@.occupancy, percent as nat),
    {
        100 * self.state.occupancy > percent * BUFFER_UNITS
    }

    /// The buffer holds less than `percent` of its size.
    fn below(&self, percent: u128) -> (yes: bool)
        requires
            self@.wf_but(2),
            self@.bits.len() <= u64::MAX,
            percent <= 100,
        ensures
            yes == below(self@.occupancy, percent as nat),
    {
        100 * self.state.occupancy < percent * BUFFER_UNITS
    }

    /// The buffer has room for a line as a PCM line.
    fn finds_room(&self, f: usize, l: usize) -> (yes: bool)
        requires
            self@.wf_but(2),
            self@.bits.len() <= u64::MAX,
            f < 2,
            l < LINES_PER_FIELD,
        ensures
            yes == finds_room(self@, f as int, l as int),
    {
        let bitrate: u128 = self.state.cfg.bitrate as u128;
        let growth: u128 = if l == 0 {
            PCM_GROWTH
        } else {
            PCM_LINE_BITS * UNITS_PER_BIT
        };
        let behind: u128 = if bitrate >= EMPTY_GROWTH {
            0
        } else {
            let short: u128 = EMPTY_GROWTH - bitrate;
            let lines: u128 = if f == 0 {
                (LINES_PER_FIELD - 1 - l) as u128
            } else {
                (LINES_PER_FRAME - 1 - l) as u128
            };
            assert(short * lines <= 143_000 * 285) by (nonlinear_arith)
                requires
                    short <= 143_000,
                    lines <= 285,
            ;
            let least: u128 = short * lines;
            if f == 0 {
                least
            } else {
                least + 28 * UNITS_PER_BIT
            }
        };
        !self.above(PANIC_AT) && self.state.occupancy + growth + behind <= BUFFER_UNITS
    }

    /// Adaptive threshold: the fuller the buffer, the less detail is coded.
    fn motion_threshold(&self) -> (thr: u8)
        requires
            self@.wf_but(2),
            self@.bits.len() <= u64::MAX,
        ensures
            thr == threshold(self@.occupancy),
    {
        let levels: u128 = 4 + 14 * self.state.occupancy / BUFFER_UNITS;
        if levels > 255 {
            255
        } else {
            levels as u8
        }
    }

    /// Lets the buffer drain for `line_slots` lines.
    fn drain(&mut self, line_slots: usize)
        requires
            line_slots <= LINES_PER_FIELD,
        ensures
            final(self).counting() == old(self).counting(),
            final(self)@ == old(self)@.drained(line_slots as nat),
    {
        assert(self.state.cfg.bitrate as u128 * line_slots as u128 <= u64::MAX * 143) by (nonlinear_arith)
            requires
                self.state.cfg.bitrate <= u64::MAX,
                line_slots <= 143,
        ;
        let drained: u128 = self.state.cfg.bitrate as u128 * line_slots as u128;
        self.state.occupancy = if self.state.occupancy >= drained {
            self.state.occupancy - drained
        } else {
            0
        };
        assert(self@ =~= old(self)@.drained(line_slots as nat));
    }

    /// Puts bits into the buffer.
    fn charge(&mut self, bits: u64)
        requires
            old(self)@.occupancy <= UNITS_PER_BIT * u64::MAX,
        ensures
            final(self).counting() == old(self).counting(),
            final(self)@ == old(self)@.charged(bits as nat),
    {
        self.state.occupancy += bits as u128 * UNITS_PER_BIT;
        if self.state.occupancy > self.stats.max_occupancy {
            self.stats.max_occupancy = self.state.occupancy;
        }
        assert(self@ =~= old(self)@.charged(bits as nat));
    }

    /// LST: 0000 0000 0000 1000 + S + 3 low bits of the line number
    /// (§1.5.2.1).
    fn write_lst(&mut self, s: bool, line_no: usize)
        requires
            old(self).counting(),
            old(self)@.bits.len() + 20 <= u64::MAX,
        ensures
            final(self).counting(),
            final(self)@ == old(self)@.sent(coding::lst_bits(s, line_no as int)),
    {
        proof {
            bits::lemma_bits_of_len(8, 16);
        }
        self.state.w.put_bits(0b0000_0000_0000_1000, 16);
        self.state.w.put_bit(s);
        self.state.w.put_bits((line_no % 8) as u32, 3);
        proof {
            let done = old(self)@.sent(coding::lst_bits(s, line_no as int));
            assert(self@.bits =~= done.bits);
            assert(self@ =~= done);
        }
    }

    /// FST: LST of line 143/287 (F in the S position, AAA in the sync word),
    /// byte 0000F11F, LST of the first line of the next field (Figure 4).
    /// FST-1 (F=1) precedes field 1, FST-2 (F=0) precedes field 2.
    fn write_fst(&mut self, f: usize, s_first: bool)
        requires
            old(self).counting(),
            old(self)@.bits.len() + 48 <= u64::MAX,
        ensures
            final(self).counting(),
            final(self)@ == old(self)@.sent(
                coding::fst_bits(f as int, old(self)@.occupancy < A_BIT_BELOW, s_first),
            ),
    {
        let fbit = f == 0;
        let a = self.state.occupancy < A_BIT_BELOW;
        proof {
            bits::lemma_bits_of_len(1, 13);
            bits::lemma_bits_of_len(7, 3);
            bits::lemma_bits_of_len(0, 3);
            bits::lemma_bits_of_len(0, 4);
            bits::lemma_bits_of_len(3, 2);
            bits::lemma_bits_of_len(8, 16);
        }
        self.state.w.put_bits(0b0000_0000_0000_1, 13);
        self.state.w.put_bits(if a { 0b111 } else { 0b000 }, 3);
        self.state.w.put_bit(fbit);
        self.state.w.put_bits(0b111, 3);
        // Central byte 0000F11F.
        self.state.w.put_bits(0, 4);
        self.state.w.put_bit(fbit);
        self.state.w.put_bits(0b11, 2);
        self.state.w.put_bit(fbit);
        // LST of line 0 or 144 (3 LSB = 000).
        self.state.w.put_bits(0b0000_0000_0000_1000, 16);
        self.state.w.put_bit(s_first);
        self.state.w.put_bits(0b000, 3);
        proof {
            let done = old(self)@.sent(
                coding::fst_bits(f as int, old(self)@.occupancy < A_BIT_BELOW, s_first),
            );
            assert(self@.bits =~= done.bits);
            assert(self@ =~= done);
        }
    }

    /// Stores the reconstruction of a line.
    fn put_line(
        &mut self,
        f: usize,
        l: usize,
        y: [u8; WIDTH],
        c: [u8; CHROMA_WIDTH],
        y_moving: [bool; WIDTH],
        c_moving: [bool; CHROMA_WIDTH],
    )
        requires
            old(self)@.fields[f as int].wf(),
            f < 2,
            l < LINES_PER_FIELD,
        ensures
            final(self).counting() == old(self).counting(),
            ({
                let field = old(self)@.fields[f as int];
                final(self)@ == (EncView {
                    fields: old(self)@.fields.update(
                        f as int,
                        FieldView {
                            y: field.y.update(l as int, y@),
                            c: field.c.update(l as int, c@),
                            y_moving: field.y_moving.update(l as int, y_moving@),
                            c_moving: field.c_moving.update(l as int, c_moving@),
                        },
                    ),
                    ..old(self)@
                })
            }),
    {
        self.state.store[f].y[l] = y;
        self.state.store[f].c[l] = c;
        self.state.store[f].y_moving[l] = y_moving;
        self.state.store[f].c_moving[l] = c_moving;
        proof {
            let field = old(self)@.fields[f as int];
            let done = FieldView {
                y: field.y.update(l as int, y@),
                c: field.c.update(l as int, c@),
                y_moving: field.y_moving.update(l as int, y_moving@),
                c_moving: field.c_moving.update(l as int, c_moving@),
            };
            assert(self@.fields[f as int].y =~= done.y);
            assert(self@.fields[f as int].c =~= done.c);
            assert(self@.fields[f as int].y_moving =~= done.y_moving);
            assert(self@.fields[f as int].c_moving =~= done.c_moving);
            assert(self@.fields =~= old(self)@.fields.update(f as int, done));
        }
    }
}

impl Encoder {
    /// DPCM of a luma cluster, element by element (§1.4.1.3.1).
    fn code_dpcm_luma(
        w: &mut BitWriter,
        input: &[u8; WIDTH],
        line: &mut [u8; WIDTH],
        prev: Option<&[u8; WIDTH]>,
        prev_not_trans: &[bool; WIDTH],
        s0: usize,
        e1: usize,
        Ghost(plane): Ghost<Plane>,
        Ghost(start): Ghost<Cluster>,
        extra_ok: bool,
    )
        requires
            old(w).wf(),
            plane.luma,
            !plane.subsampled,
            plane.prev == codec::line_view(prev),
            plane.prev_not_trans == prev_not_trans@,
            start.line == old(line)@,
            start.q == s0,
            coding::on_course(plane, start, e1 as int),
            old(w)@.len() + 10 * (e1 - s0) <= u64::MAX,
        ensures
            final(w).wf(),
            ({
                let (code, done) = coding::codes(plane, start, input@, e1 as int, extra_ok);
                &&& final(w)@ == old(w)@ + code
                &&& final(line)@ == done.line
                &&& done.extras == start.extras
                &&& done.not_trans == start.not_trans
            }),
    {
        let ghost (whole, done) = coding::codes(plane, start, input@, e1 as int, extra_ok);
        let ghost mut st = start;
        let mut e: usize = s0;
        proof {
            assert(w@ + whole == old(w)@ + whole);
        }
        while e < e1
            invariant
                w.wf(),
                s0 <= e <= e1,
                plane.luma,
                !plane.subsampled,
                plane.prev == codec::line_view(prev),
                plane.prev_not_trans == prev_not_trans@,
                st.line == line@,
                st.q == e,
                st.extras == start.extras,
                st.not_trans == start.not_trans,
                coding::on_course(plane, st, e1 as int),
                w@.len() + 10 * (e1 - e) <= u64::MAX,
                coding::codes(plane, st, input@, e1 as int, extra_ok).1 == done,
                w@ + coding::codes(plane, st, input@, e1 as int, extra_ok).0 == old(w)@ + whole,
            decreases e1 - e,
        {
            let a = line[e];
            let ghost before = w@;
            let ghost st0 = st;
            e += 1;
            let d = d_value(prev, prev_not_trans, e);
            let pred = predict_luma(a, d);
            let diff = input[e] as i16 - pred as i16;
            let (level, run, neg) = tables::quantize(diff, false, false);
            proof {
                tables::lemma_level_range(diff as int, false, false);
                coding::lemma_coded(plane, st, input@[e as int]);
            }
            tables::write_code(w, run, neg);
            line[e] = clamp_y(pred as i16 + level);
            proof {
                let (code, next) = coding::coded_normal(plane, st, input@[e as int]);
                st = next;
                assert(st.line =~= line@);
                let rest = coding::codes(plane, st, input@, e1 as int, extra_ok).0;
                assert(w@ == before + code);
                assert(coding::codes(plane, st0, input@, e1 as int, extra_ok).0
                    =~= Seq::<bool>::empty() + code + rest);
                assert(w@ + rest =~= before + (code + rest));
            }
        }
        assert(w@ =~= old(w)@ + whole);
    }

    /// The extra element behind the normal element `q` of a luma cluster.
    fn code_extra_luma(
        w: &mut BitWriter,
        sample: u8,
        line: &mut [u8; WIDTH],
        prev: Option<&[u8; WIDTH]>,
        prev_not_trans: &[bool; WIDTH],
        q: usize,
        Ghost(plane): Ghost<Plane>,
        Ghost(st): Ghost<Cluster>,
    )
        requires
            old(w).wf(),
            plane.luma,
            plane.subsampled,
            plane.prev == codec::line_view(prev),
            plane.prev_not_trans == prev_not_trans@,
            st.line == old(line)@,
            st.q == q,
            st.last == q,
            q < plane.last_element(),
            old(w)@.len() + 10 <= u64::MAX,
        ensures
            final(w).wf(),
            final(w)@ == old(w)@ + coding::coded_extra(plane, st, sample).0,
            final(line)@ == coding::coded_extra(plane, st, sample).1.line,
    {
        let o: usize = q + 1;
        let pred = predict_luma(line[q], d_value(prev, prev_not_trans, o));
        let diff = sample as i16 - pred as i16;
        let (level, run, neg) = tables::quantize(diff, true, true);
        proof {
            tables::lemma_level_range(diff as int, true, true);
            coding::lemma_coded(plane, st, sample);
        }
        tables::write_code(w, run, neg);
        line[o] = clamp_y(pred as i16 + level);
        assert(coding::coded_extra(plane, st, sample).1.line =~= line@);
    }

    /// The normal element two behind the normal element `q` of a subsampled
    /// luma cluster; the element between them is interpolated if it was not
    /// transmitted.
    fn code_normal_luma(
        w: &mut BitWriter,
        sample: u8,
        line: &mut [u8; WIDTH],
        prev: Option<&[u8; WIDTH]>,
        prev_not_trans: &[bool; WIDTH],
        q: usize,
        o_transmitted: bool,
        not_trans: &mut [bool; WIDTH],
        Ghost(plane): Ghost<Plane>,
        Ghost(st): Ghost<Cluster>,
    )
        requires
            old(w).wf(),
            plane.luma,
            plane.subsampled,
            plane.prev == codec::line_view(prev),
            plane.prev_not_trans == prev_not_trans@,
            st.line == old(line)@,
            st.not_trans == old(not_trans)@,
            st.q == q,
            st.last == if o_transmitted {
                q + 1
            } else {
                q as int
            },
            q % 2 == plane.parity,
            q + 2 <= plane.last_element(),
            old(w)@.len() + 10 <= u64::MAX,
        ensures
            final(w).wf(),
            final(w)@ == old(w)@ + coding::coded_normal(plane, st, sample).0,
            final(line)@ == coding::coded_normal(plane, st, sample).1.line,
            final(not_trans)@ == coding::coded_normal(plane, st, sample).1.not_trans,
    {
        let o: usize = q + 1;
        let t: usize = q + 2;
        // A is replaced by AS if it was not transmitted.
        let a = if o_transmitted {
            line[o]
        } else {
            line[q]
        };
        let pred = predict_luma(a, d_value(prev, prev_not_trans, t));
        let diff = sample as i16 - pred as i16;
        let (level, run, neg) = tables::quantize(diff, true, false);
        proof {
            tables::lemma_level_range(diff as int, true, false);
            coding::lemma_coded(plane, st, sample);
        }
        tables::write_code(w, run, neg);
        let x = clamp_y(pred as i16 + level);
        line[t] = x;
        if !o_transmitted {
            // Interpolation of omitted elements, written into the store.
            line[o] = predict_luma(line[q], x);
            not_trans[o] = true;
        }
        proof {
            assert(coding::coded_normal(plane, st, sample).1.line =~= line@);
            assert(coding::coded_normal(plane, st, sample).1.not_trans =~= not_trans@);
        }
    }

    /// DPCM of a subsampled luma cluster: quincunx, optional "extra" elements,
    /// interpolation of omitted elements (§1.4.1.4.1). `s0` and `e1` are
    /// already aligned to the line parity. Returns the number of extra
    /// elements.
    fn code_dpcm_sub_luma(
        w: &mut BitWriter,
        input: &[u8; WIDTH],
        line: &mut [u8; WIDTH],
        prev: Option<&[u8; WIDTH]>,
        prev_not_trans: &[bool; WIDTH],
        s0: usize,
        e1: usize,
        extra_ok: bool,
        not_trans: &mut [bool; WIDTH],
        Ghost(plane): Ghost<Plane>,
    ) -> (extras: u64)
        requires
            old(w).wf(),
            plane.luma,
            plane.subsampled,
            plane.prev == codec::line_view(prev),
            plane.prev_not_trans == prev_not_trans@,
            coding::on_course(
                plane,
                Cluster {
                    line: old(line)@,
                    not_trans: old(not_trans)@,
                    q: s0 as int,
                    last: s0 as int,
                    extras: 0,
                },
                e1 as int,
            ),
            old(w)@.len() + 10 * (e1 - s0) <= u64::MAX,
        ensures
            final(w).wf(),
            ({
                let (code, done) = coding::codes(
                    plane,
                    Cluster {
                        line: old(line)@,
                        not_trans: old(not_trans)@,
                        q: s0 as int,
                        last: s0 as int,
                        extras: 0,
                    },
                    input@,
                    e1 as int,
                    extra_ok,
                );
                &&& final(w)@ == old(w)@ + code
                &&& final(line)@ == done.line
                &&& final(not_trans)@ == done.not_trans
                &&& extras == done.extras
            }),
    {
        let ghost start = Cluster {
            line: line@,
            not_trans: not_trans@,
            q: s0 as int,
            last: s0 as int,
            extras: 0,
        };
        let ghost (whole, done) = coding::codes(plane, start, input@, e1 as int, extra_ok);
        let ghost mut st = start;
        let mut extras: u64 = 0;
        let mut q: usize = s0;
        proof {
            assert(w@ + whole == old(w)@ + whole);
        }
        while q + 2 <= e1
            invariant
                w.wf(),
                s0 <= q <= e1 < WIDTH,
                plane.luma,
                plane.subsampled,
                plane.prev == codec::line_view(prev),
                plane.prev_not_trans == prev_not_trans@,
                st.line == line@,
                st.not_trans == not_trans@,
                st.q == q,
                st.extras == extras,
                extras <= q - s0,
                coding::on_course(plane, st, e1 as int),
                w@.len() + 10 * (e1 - q) <= u64::MAX,
                coding::codes(plane, st, input@, e1 as int, extra_ok).1 == done,
                w@ + coding::codes(plane, st, input@, e1 as int, extra_ok).0 == old(w)@ + whole,
            decreases e1 - q,
        {
            let o: usize = q + 1;
            let t: usize = q + 2;
            let ghost before = w@;
            let ghost st0 = st;
            // Extra element if the interpolation would be too far off.
            let interp_est: i16 = (line[q] as i16 + input[t] as i16) / 2;
            let miss: i16 = input[o] as i16 - interp_est;
            let far = miss >= EXTRA_THRESHOLD || -miss >= EXTRA_THRESHOLD;
            let o_transmitted = extra_ok && far;
            let ghost mut extra_bits = Seq::<bool>::empty();
            proof {
                coding::lemma_codes_unfold(plane, st, input@, e1 as int, extra_ok);
                assert(o_transmitted == (extra_ok && coding::needs_extra(st, input@)));
            }
            if o_transmitted {
                Self::code_extra_luma(w, input[o], line, prev, prev_not_trans, q, Ghost(plane), Ghost(st));
                extras += 1;
                proof {
                    let (code, next) = coding::coded_extra(plane, st, input@[o as int]);
                    st = next;
                    extra_bits = code;
                }
            }
            let ghost st1 = st;
            proof {
                assert(w@ =~= before + extra_bits);
            }
            Self::code_normal_luma(
                w,
                input[t],
                line,
                prev, prev_not_trans, q,
                o_transmitted,
                not_trans, Ghost(plane),
                Ghost(st1),
            );
            q = t;
            proof {
                let (code, next) = coding::coded_normal(plane, st1, input@[t as int]);
                st = next;
                let rest = coding::codes(plane, st, input@, e1 as int, extra_ok).0;
                assert(coding::codes(plane, st0, input@, e1 as int, extra_ok).0 == extra_bits
                    + code + rest);
                assert(w@ + rest =~= before + (extra_bits + code + rest));
            }
        }
        assert(w@ =~= old(w)@ + whole);
        extras
    }

    /// DPCM of a chroma cluster: X = A prediction (§1.4.2.3.1).
    fn code_dpcm_chroma(
        w: &mut BitWriter,
        input: &[u8; CHROMA_WIDTH],
        line: &mut [u8; CHROMA_WIDTH],
        s0: usize,
        e1: usize,
        Ghost(plane): Ghost<Plane>,
        Ghost(start): Ghost<Cluster>,
        extra_ok: bool,
    )
        requires
            old(w).wf(),
            !plane.luma,
            !plane.subsampled,
            start.line == old(line)@,
            start.q == s0,
            coding::on_course(plane, start, e1 as int),
            old(w)@.len() + 10 * (e1 - s0) <= u64::MAX,
        ensures
            final(w).wf(),
            ({
                let (code, done) = coding::codes(plane, start, input@, e1 as int, extra_ok);
                &&& final(w)@ == old(w)@ + code
                &&& final(line)@ == done.line
                &&& done.extras == start.extras
            }),
    {
        let ghost (whole, done) = coding::codes(plane, start, input@, e1 as int, extra_ok);
        let ghost mut st = start;
        let mut e: usize = s0;
        proof {
            assert(w@ + whole == old(w)@ + whole);
        }
        while e < e1
            invariant
                w.wf(),
                s0 <= e <= e1,
                !plane.luma,
                !plane.subsampled,
                st.line == line@,
                st.q == e,
                st.extras == start.extras,
                coding::on_course(plane, st, e1 as int),
                w@.len() + 10 * (e1 - e) <= u64::MAX,
                coding::codes(plane, st, input@, e1 as int, extra_ok).1 == done,
                w@ + coding::codes(plane, st, input@, e1 as int, extra_ok).0 == old(w)@ + whole,
            decreases e1 - e,
        {
            let pred = line[e];
            let ghost before = w@;
            let ghost st0 = st;
            e += 1;
            let diff = input[e] as i16 - pred as i16;
            let (level, run, neg) = tables::quantize(diff, false, false);
            proof {
                tables::lemma_level_range(diff as int, false, false);
                coding::lemma_coded(plane, st, input@[e as int]);
            }
            tables::write_code(w, run, neg);
            line[e] = clamp_c(pred as i16 + level);
            proof {
                let (code, next) = coding::coded_normal(plane, st, input@[e as int]);
                st = next;
                assert(st.line =~= line@);
                let rest = coding::codes(plane, st, input@, e1 as int, extra_ok).0;
                assert(w@ == before + code);
                assert(coding::codes(plane, st0, input@, e1 as int, extra_ok).0
                    =~= Seq::<bool>::empty() + code + rest);
                assert(w@ + rest =~= before + (code + rest));
            }
        }
        assert(w@ =~= old(w)@ + whole);
    }

    /// The extra element behind the normal element `q` of a chroma cluster.
    fn code_extra_chroma(
        w: &mut BitWriter,
        sample: u8,
        line: &mut [u8; CHROMA_WIDTH],
        q: usize,
        Ghost(plane): Ghost<Plane>,
        Ghost(st): Ghost<Cluster>,
    )
        requires
            old(w).wf(),
            !plane.luma,
            plane.subsampled,
            st.line == old(line)@,
            st.q == q,
            st.last == q,
            q < plane.last_element(),
            old(w)@.len() + 10 <= u64::MAX,
        ensures
            final(w).wf(),
            final(w)@ == old(w)@ + coding::coded_extra(plane, st, sample).0,
            final(line)@ == coding::coded_extra(plane, st, sample).1.line,
    {
        let o: usize = q + 1;
        let pred = line[q];
        let diff = sample as i16 - pred as i16;
        let (level, run, neg) = tables::quantize(diff, true, true);
        proof {
            tables::lemma_level_range(diff as int, true, true);
            coding::lemma_coded(plane, st, sample);
        }
        tables::write_code(w, run, neg);
        line[o] = clamp_c(pred as i16 + level);
        assert(coding::coded_extra(plane, st, sample).1.line =~= line@);
    }

    /// The normal element two behind the normal element `q` of a subsampled
    /// chroma cluster; the element between them is interpolated if it was not
    /// transmitted.
    fn code_normal_chroma(
        w: &mut BitWriter,
        sample: u8,
        line: &mut [u8; CHROMA_WIDTH],
        q: usize,
        o_transmitted: bool,
        Ghost(plane): Ghost<Plane>,
        Ghost(st): Ghost<Cluster>,
    )
        requires
            old(w).wf(),
            !plane.luma,
            plane.subsampled,
            st.line == old(line)@,
            st.q == q,
            st.last == if o_transmitted {
                q + 1
            } else {
                q as int
            },
            q % 2 == plane.parity,
            q + 2 <= plane.last_element(),
            old(w)@.len() + 10 <= u64::MAX,
        ensures
            final(w).wf(),
            final(w)@ == old(w)@ + coding::coded_normal(plane, st, sample).0,
            final(line)@ == coding::coded_normal(plane, st, sample).1.line,
    {
        let o: usize = q + 1;
        let t: usize = q + 2;
        // A is replaced by AS if it was not transmitted.
        let a = if o_transmitted {
            line[o]
        } else {
            line[q]
        };
        let pred = a;
        let diff = sample as i16 - pred as i16;
        let (level, run, neg) = tables::quantize(diff, true, false);
        proof {
            tables::lemma_level_range(diff as int, true, false);
            coding::lemma_coded(plane, st, sample);
        }
        tables::write_code(w, run, neg);
        let x = clamp_c(pred as i16 + level);
        line[t] = x;
        if !o_transmitted {
            // Interpolation of omitted elements, written into the store.
            line[o] = predict_luma(line[q], x);
        }
        proof {
            assert(coding::coded_normal(plane, st, sample).1.line =~= line@);
        }
    }

    /// DPCM of a subsampled chroma cluster (X = A prediction, no D). Returns
    /// the number of extra elements.
    fn code_dpcm_sub_chroma(
        w: &mut BitWriter,
        input: &[u8; CHROMA_WIDTH],
        line: &mut [u8; CHROMA_WIDTH],
        s0: usize,
        e1: usize,
        extra_ok: bool,
        Ghost(plane): Ghost<Plane>,
        Ghost(start): Ghost<Cluster>,
    ) -> (extras: u64)
        requires
            old(w).wf(),
            !plane.luma,
            plane.subsampled,
            start.line == old(line)@,
            start.q == s0,
            start.extras == 0,
            coding::on_course(plane, start, e1 as int),
            old(w)@.len() + 10 * (e1 - s0) <= u64::MAX,
        ensures
            final(w).wf(),
            ({
                let (code, done) = coding::codes(plane, start, input@, e1 as int, extra_ok);
                &&& final(w)@ == old(w)@ + code
                &&& final(line)@ == done.line
                &&& extras == done.extras
            }),
    {
        let ghost (whole, done) = coding::codes(plane, start, input@, e1 as int, extra_ok);
        let ghost mut st = start;
        let mut extras: u64 = 0;
        let mut q: usize = s0;
        proof {
            assert(w@ + whole == old(w)@ + whole);
        }
        while q + 2 <= e1
            invariant
                w.wf(),
                s0 <= q <= e1 < CHROMA_WIDTH,
                !plane.luma,
                plane.subsampled,
                st.line == line@,
                st.q == q,
                st.extras == extras,
                extras <= q - s0,
                coding::on_course(plane, st, e1 as int),
                w@.len() + 10 * (e1 - q) <= u64::MAX,
                coding::codes(plane, st, input@, e1 as int, extra_ok).1 == done,
                w@ + coding::codes(plane, st, input@, e1 as int, extra_ok).0 == old(w)@ + whole,
            decreases e1 - q,
        {
            let o: usize = q + 1;
            let t: usize = q + 2;
            let ghost before = w@;
            let ghost st0 = st;
            // Extra element if the interpolation would be too far off.
            let interp_est: i16 = (line[q] as i16 + input[t] as i16) / 2;
            let miss: i16 = input[o] as i16 - interp_est;
            let far = miss >= EXTRA_THRESHOLD || -miss >= EXTRA_THRESHOLD;
            let o_transmitted = extra_ok && far;
            let ghost mut extra_bits = Seq::<bool>::empty();
            proof {
                coding::lemma_codes_unfold(plane, st, input@, e1 as int, extra_ok);
                assert(o_transmitted == (extra_ok && coding::needs_extra(st, input@)));
            }
            if o_transmitted {
                Self::code_extra_chroma(w, input[o], line, q, Ghost(plane), Ghost(st));
                extras += 1;
                proof {
                    let (code, next) = coding::coded_extra(plane, st, input@[o as int]);
                    st = next;
                    extra_bits = code;
                }
            }
            let ghost st1 = st;
            proof {
                assert(w@ =~= before + extra_bits);
            }
            Self::code_normal_chroma(
                w,
                input[t],
                line,
                q,
                o_transmitted,
                Ghost(plane),
                Ghost(st1),
            );
            q = t;
            proof {
                let (code, next) = coding::coded_normal(plane, st1, input@[t as int]);
                st = next;
                let rest = coding::codes(plane, st, input@, e1 as int, extra_ok).0;
                assert(coding::codes(plane, st0, input@, e1 as int, extra_ok).0 == extra_bits
                    + code + rest);
                assert(w@ + rest =~= before + (extra_bits + code + rest));
            }
        }
        assert(w@ =~= old(w)@ + whole);
        extras
    }

    /// The luma clusters of a line, each with its PCM value, its address and
    /// its codes (figure under §1.5.3). Returns the number of extra elements.
    #[verifier::spinoff_prover]
    #[verifier::rlimit(40)]
    fn code_luma_clusters(
        w: &mut BitWriter,
        clusters: &Vec<(usize, usize)>,
        input: &[u8; WIDTH],
        line: &mut [u8; WIDTH],
        prev: Option<&[u8; WIDTH]>,
        prev_not_trans: &[bool; WIDTH],
        subsampled: bool,
        extra_ok: bool,
        has_chroma: bool,
        not_trans: &mut [bool; WIDTH],
        moving: &mut [bool; WIDTH],
        Ghost(plane): Ghost<Plane>,
    ) -> (extras: u64)
        requires
            old(w).wf(),
            plane.luma,
            plane.subsampled == subsampled,
            plane.prev == codec::line_view(prev),
            plane.prev_not_trans == prev_not_trans@,
            coding::codable(plane, clusters::spans(clusters@)),
            old(w)@.len() + 3000 <= u64::MAX,
        ensures
            final(w).wf(),
            ({
                let (code, done) = coding::clusters_code(
                    plane,
                    clusters::spans(clusters@),
                    0,
                    PlaneState {
                        line: old(line)@,
                        not_trans: old(not_trans)@,
                        moving: old(moving)@,
                        extras: 0,
                    },
                    input@,
                    extra_ok,
                    has_chroma,
                );
                &&& final(w)@ == old(w)@ + code
                &&& final(line)@ == done.line
                &&& final(not_trans)@ == done.not_trans
                &&& final(moving)@ == done.moving
                &&& extras == done.extras
            }),
    {
        let ghost spans = clusters::spans(clusters@);
        let ghost mut ps = PlaneState {
            line: line@,
            not_trans: not_trans@,
            moving: moving@,
            extras: 0,
        };
        let ghost (whole, done) = coding::clusters_code(
            plane,
            spans,
            0,
            ps,
            input@,
            extra_ok,
            has_chroma,
        );
        let mut extras: u64 = 0;
        let mut i: usize = 0;
        while i < clusters.len()
            invariant
                w.wf(),
                plane.luma,
                plane.subsampled == subsampled,
                plane.prev == codec::line_view(prev),
                plane.prev_not_trans == prev_not_trans@,
                spans == clusters::spans(clusters@),
                coding::codable(plane, spans),
                0 <= i <= spans.len(),
                spans.len() == clusters@.len(),
                old(w)@.len() + 3000 <= u64::MAX,
                i < spans.len() ==> w@.len() <= old(w)@.len() + 10 * spans[i as int].0,
                coding::plane_wf(plane, ps),
                ps.line == line@,
                ps.not_trans == not_trans@,
                ps.moving == moving@,
                ps.extras == extras,
                extras <= w@.len(),
                coding::clusters_code(
                    plane,
                    spans,
                    i as int,
                    ps,
                    input@,
                    extra_ok,
                    has_chroma,
                ).1 == done,
                w@ + coding::clusters_code(
                    plane,
                    spans,
                    i as int,
                    ps,
                    input@,
                    extra_ok,
                    has_chroma,
                ).0 == old(w)@ + whole,
            decreases spans.len() - i,
        {
            let (s0, e1) = clusters[i];
            let ghost span = spans[i as int];
            let ghost before = w@;
            let ghost start = coding::cluster_start(plane, ps, input@, s0 as int);
            let ghost (head, next) = coding::cluster_code(plane, ps, input@, span, extra_ok);
            let ghost rest = coding::clusters_code(
                plane,
                spans,
                i + 1,
                next,
                input@,
                extra_ok,
                has_chroma,
            );
            proof {
                assert(span == (s0 as int, e1 as int));
                coding::lemma_cluster_code(plane, ps, input@, span, extra_ok);
                assert(before.len() + head.len() + 4 <= old(w)@.len() + 10 * (e1 + 2));
                if i + 1 < spans.len() {
                    assert(spans[i as int].1 + codec::MIN_CLUSTER_GAP < spans[i + 1].0);
                }
            }
            w.put_bits(input[s0] as u32, 8);
            w.put_bits(s0 as u32, 8);
            line[s0] = input[s0];
            assert(start == Cluster {
                line: line@,
                not_trans: not_trans@,
                q: s0 as int,
                last: s0 as int,
                extras: 0,
            });
            if subsampled {
                let n = Self::code_dpcm_sub_luma(
                    w,
                    input,
                    line,
                    prev,
                    prev_not_trans,
                    s0,
                    e1,
                    extra_ok,
                    not_trans,
                    Ghost(plane),
                );
                extras += n;
            } else {
                Self::code_dpcm_luma(
                    w,
                    input,
                    line,
                    prev,
                    prev_not_trans,
                    s0,
                    e1,
                    Ghost(plane),
                    Ghost(start),
                    extra_ok,
                );
            }
            assert(w@ =~= before + head);
            mark(moving, s0, e1);
            // EOC except after the last cluster of the line; if color data
            // follows, the last luma cluster keeps its EOC (§1.5.4).
            if i + 1 < clusters.len() || has_chroma {
                tables::write_eoc(w);
            }
            proof {
                let sep = coding::separator(spans, i as int, has_chroma);
                assert(w@ =~= before + head + sep);
                assert(before + (head + sep + rest.0) =~= before + head + sep + rest.0);
                assert(next =~= PlaneState {
                    line: line@,
                    not_trans: not_trans@,
                    moving: moving@,
                    extras: extras as nat,
                });
                ps = next;
            }
            i += 1;
        }
        proof {
            assert(w@ =~= old(w)@ + whole);
        }
        extras
    }

    /// The chroma clusters of a line, behind the color escape. Returns the
    /// number of extra elements.
    #[verifier::spinoff_prover]
    #[verifier::rlimit(40)]
    fn code_chroma_clusters(
        w: &mut BitWriter,
        clusters: &Vec<(usize, usize)>,
        input: &[u8; CHROMA_WIDTH],
        line: &mut [u8; CHROMA_WIDTH],
        subsampled: bool,
        extra_ok: bool,
        moving: &mut [bool; CHROMA_WIDTH],
        Ghost(plane): Ghost<Plane>,
    ) -> (extras: u64)
        requires
            old(w).wf(),
            !plane.luma,
            plane.subsampled == subsampled,
            coding::codable(plane, clusters::spans(clusters@)),
            old(w)@.len() + 1000 <= u64::MAX,
        ensures
            final(w).wf(),
            ({
                let (code, done) = coding::clusters_code(
                    plane,
                    clusters::spans(clusters@),
                    0,
                    PlaneState {
                        line: old(line)@,
                        not_trans: dpcm::none_omitted(),
                        moving: old(moving)@,
                        extras: 0,
                    },
                    input@,
                    extra_ok,
                    false,
                );
                &&& final(w)@ == old(w)@ + code
                &&& final(line)@ == done.line
                &&& final(moving)@ == done.moving
                &&& extras == done.extras
            }),
    {
        let ghost spans = clusters::spans(clusters@);
        let ghost mut ps = PlaneState {
            line: line@,
            not_trans: dpcm::none_omitted(),
            moving: moving@,
            extras: 0,
        };
        let ghost (whole, done) = coding::clusters_code(
            plane,
            spans,
            0,
            ps,
            input@,
            extra_ok,
            false,
        );
        let mut extras: u64 = 0;
        let mut i: usize = 0;
        while i < clusters.len()
            invariant
                w.wf(),
                !plane.luma,
                plane.subsampled == subsampled,
                spans == clusters::spans(clusters@),
                coding::codable(plane, spans),
                0 <= i <= spans.len(),
                spans.len() == clusters@.len(),
                old(w)@.len() + 1000 <= u64::MAX,
                i < spans.len() ==> w@.len() <= old(w)@.len() + 10 * spans[i as int].0,
                coding::plane_wf(plane, ps),
                ps.line == line@,
                ps.not_trans == dpcm::none_omitted(),
                ps.moving == moving@,
                ps.extras == extras,
                extras <= w@.len(),
                coding::clusters_code(
                    plane,
                    spans,
                    i as int,
                    ps,
                    input@,
                    extra_ok,
                    false,
                ).1 == done,
                w@ + coding::clusters_code(
                    plane,
                    spans,
                    i as int,
                    ps,
                    input@,
                    extra_ok,
                    false,
                ).0 == old(w)@ + whole,
            decreases spans.len() - i,
        {
            let (s0, e1) = clusters[i];
            let ghost span = spans[i as int];
            let ghost before = w@;
            let ghost start = coding::cluster_start(plane, ps, input@, s0 as int);
            let ghost (head, next) = coding::cluster_code(plane, ps, input@, span, extra_ok);
            let ghost rest = coding::clusters_code(
                plane,
                spans,
                i + 1,
                next,
                input@,
                extra_ok,
                false,
            );
            proof {
                assert(span == (s0 as int, e1 as int));
                coding::lemma_cluster_code(plane, ps, input@, span, extra_ok);
                assert(before.len() + head.len() + 4 <= old(w)@.len() + 10 * (e1 + 2));
                if i + 1 < spans.len() {
                    assert(spans[i as int].1 + codec::MIN_CLUSTER_GAP < spans[i + 1].0);
                }
            }
            w.put_bits(input[s0] as u32, 8);
            w.put_bits((s0 + CHROMA_ADDR_BASE) as u32, 8);
            line[s0] = input[s0];
            if subsampled {
                let n = Self::code_dpcm_sub_chroma(
                    w,
                    input,
                    line,
                    s0,
                    e1,
                    extra_ok,
                    Ghost(plane),
                    Ghost(start),
                );
                extras += n;
            } else {
                Self::code_dpcm_chroma(
                    w,
                    input,
                    line,
                    s0,
                    e1,
                    Ghost(plane),
                    Ghost(start),
                    extra_ok,
                );
            }
            assert(w@ =~= before + head);
            mark(moving, s0, e1);
            if i + 1 < clusters.len() {
                tables::write_eoc(w);
            }
            proof {
                let sep = coding::separator(spans, i as int, false);
                assert(w@ =~= before + head + sep);
                assert(before + (head + sep + rest.0) =~= before + head + sep + rest.0);
                assert(next =~= PlaneState {
                    line: line@,
                    not_trans: dpcm::none_omitted(),
                    moving: moving@,
                    extras: extras as nat,
                });
                ps = next;
            }
            i += 1;
        }
        proof {
            assert(w@ =~= old(w)@ + whole);
        }
        extras
    }
}

/// Writes the samples of a line as they are.
fn put_samples<const N: usize>(w: &mut BitWriter, samples: &[u8; N])
    requires
        old(w).wf(),
        old(w)@.len() + 8 * N <= u64::MAX,
    ensures
        final(w).wf(),
        final(w)@ == old(w)@ + bits::bits_of_bytes(samples@),
{
    let mut e: usize = 0;
    assert(w@ =~= old(w)@ + bits::bits_of_bytes(samples@.take(0)));
    while e < N
        invariant
            e <= N,
            samples@.len() == N,
            w.wf(),
            old(w)@.len() + 8 * N <= u64::MAX,
            w@ == old(w)@ + bits::bits_of_bytes(samples@.take(e as int)),
        decreases N - e,
    {
        w.put_bits(samples[e] as u32, 8);
        proof {
            bits::lemma_bits_of_bytes_push(samples@.take(e as int), samples@[e as int]);
            assert(samples@.take(e as int).push(samples@[e as int]) =~= samples@.take(e + 1));
        }
        e += 1;
        assert(w@ =~= old(w)@ + bits::bits_of_bytes(samples@.take(e as int)));
    }
    assert(samples@.take(N as int) =~= samples@);
}

impl Encoder {
    /// PCM line (Figure 6): 0xFF, invalid address 0xFF, 255 PCM values,
    /// 10000000 (element 255 = 128), then 52 chroma values (§1.5.5).
    fn code_pcm_line(&mut self, f: usize, l: usize, input: &FieldInput)
        requires
            old(self).counting(),
            old(self)@.wf_but(2),
            old(self)@.bits.len() + 3000 <= u64::MAX,
            f < 2,
            l < LINES_PER_FIELD,
            input@.wf(),
        ensures
            final(self).counting(),
            ({
                let code = coding::pcm_line(input@.y[l as int], input@.c[l as int]);
                final(self)@ == line_counted(
                    old(self)@.with_code(f as int, l as int, code),
                    f as int,
                    l as int,
                    true,
                    false,
                    false,
                    code,
                )
            }),
    {
        let ghost y_in = input@.y[l as int];
        let ghost c_in = input@.c[l as int];
        let ghost code = coding::pcm_line(y_in, c_in);
        assert(input.y@[l as int]@ == y_in);
        assert(input.c@[l as int]@ == c_in);
        assert(self@.refreshed[f as int].len() == LINES_PER_FIELD);
        assert(self@.fields[f as int].wf());
        self.stats.pcm_lines += 1;
        self.state.refreshed[f][l] = true;
        let mut y_line = input.y[l];
        y_line[WIDTH - 1] = BLANKING;
        let c_line = input.c[l];
        proof {
            bits::lemma_bits_of_len(0xFF, 8);
        }
        self.state.w.put_bits(0xFF, 8);
        self.state.w.put_bits(0xFF, 8);
        put_samples(&mut self.state.w, &y_line);
        put_samples(&mut self.state.w, &c_line);
        proof {
            let signal = seq![0xFFu8, 0xFFu8];
            assert(y_line@ =~= dpcm::blanked(y_in));
            bits::lemma_bits_of_bytes_push(Seq::empty(), 0xFF);
            bits::lemma_bits_of_bytes_push(seq![0xFFu8], 0xFF);
            assert(Seq::<u8>::empty().push(0xFF) =~= seq![0xFFu8]);
            assert(seq![0xFFu8].push(0xFF) =~= signal);
            bits::lemma_bits_of_bytes_concat(signal, y_line@);
            bits::lemma_bits_of_bytes_concat(signal + y_line@, c_line@);
            assert(self.state.w@ =~= old(self).state.w@ + code.bits);
            assert(self.state.refreshed[f as int]@ =~= old(self)@.refreshed[f as int].update(
                l as int,
                true,
            ));
            assert(self@.refreshed =~= old(self)@.refreshed.update(
                f as int,
                old(self)@.refreshed[f as int].update(l as int, true),
            ));
        }
        let ghost written = self@;
        // A PCM line is non-moving for field interpolation (§1.5.5).
        self.put_line(f, l, y_line, c_line, [false; WIDTH], [false; CHROMA_WIDTH]);
        proof {
            let done = line_counted(
                old(self)@.with_code(f as int, l as int, code),
                f as int,
                l as int,
                true,
                false,
                false,
                code,
            );
            assert([false; WIDTH]@ =~= code.y_moving);
            assert([false; CHROMA_WIDTH]@ =~= code.c_moving);
            assert(written.fields == old(self)@.fields);
            assert(self@.fields =~= done.fields);
            assert(self@ =~= done);
        }
    }

    /// The clusters of a line, luminance and chrominance (implementation
    /// choice, no impact on interoperability).
    fn find_clusters(
        y_input: &[u8; WIDTH],
        c_input: &[u8; CHROMA_WIDTH],
        y_line: &[u8; WIDTH],
        c_line: &[u8; CHROMA_WIDTH],
        thr: u8,
        subsampled: bool,
        parity: usize,
        Ghost(ctx): Ghost<LineContext>,
    ) -> (found: (Vec<(usize, usize)>, Vec<(usize, usize)>))
        requires
            thr <= 253,
            parity < 2,
            ctx.parity == parity,
            ctx.subsampled == subsampled,
        ensures
            clusters::spans(found.0@) == coding::luma_spans(ctx, y_input@, y_line@, thr as int),
            clusters::spans(found.1@) == coding::chroma_spans(ctx, c_input@, c_line@, thr as int),
    {
        let mut y_clusters = detect_clusters(y_input, y_line, thr, WIDTH - 2, WIDTH - 2);
        let mut c_clusters = detect_clusters(
            c_input,
            c_line,
            thr + 2,
            CHROMA_WIDTH - 1,
            CHROMA_WIDTH - 2,
        );
        if subsampled {
            proof {
                let y_spans = clusters::spans(y_clusters@);
                let c_spans = clusters::spans(c_clusters@);
                assert forall|i: int| 0 <= i < y_clusters@.len() implies (
                #[trigger] y_clusters@[i]).0 <= 254 && y_clusters@[i].1 <= 254 by {
                    assert(y_spans[i].1 <= 254);
                }
                assert forall|i: int| 0 <= i < c_clusters@.len() implies (
                #[trigger] c_clusters@[i]).0 <= 254 && c_clusters@[i].1 <= 254 by {
                    assert(c_spans[i].1 <= 254);
                }
            }
            adjust_parity(&mut y_clusters, parity, WIDTH - 2);
            adjust_parity(&mut c_clusters, parity, CHROMA_WIDTH - 1);
        }
        (y_clusters, c_clusters)
    }

    /// Codes the clusters of a line and reconstructs it. Returns the number of
    /// extra elements.
    fn code_clusters(
        w: &mut BitWriter,
        y_clusters: &Vec<(usize, usize)>,
        c_clusters: &Vec<(usize, usize)>,
        y_input: &[u8; WIDTH],
        c_input: &[u8; CHROMA_WIDTH],
        y_line: &mut [u8; WIDTH],
        c_line: &mut [u8; CHROMA_WIDTH],
        y_moving: &mut [bool; WIDTH],
        c_moving: &mut [bool; CHROMA_WIDTH],
        prev: Option<&[u8; WIDTH]>,
        prev_not_trans: &[bool; WIDTH],
        subsampled: bool,
        extra_ok: bool,
        not_trans: &mut [bool; WIDTH],
        Ghost(ctx): Ghost<LineContext>,
    ) -> (extras: u64)
        requires
            old(w).wf(),
            old(w)@.len() + 4000 <= u64::MAX,
            ctx.subsampled == subsampled,
            ctx.prev == codec::line_view(prev),
            ctx.prev_not_trans == prev_not_trans@,
            coding::codable(ctx.luma(), clusters::spans(y_clusters@)),
            coding::codable(ctx.chroma(), clusters::spans(c_clusters@)),
            old(not_trans)@ == dpcm::none_omitted(),
        ensures
            final(w).wf(),
            ({
                let code = coding::clusters_line(
                    ctx,
                    LineStore {
                        y: old(y_line)@,
                        c: old(c_line)@,
                        y_moving: old(y_moving)@,
                        c_moving: old(c_moving)@,
                    },
                    y_input@,
                    c_input@,
                    clusters::spans(y_clusters@),
                    clusters::spans(c_clusters@),
                    extra_ok,
                );
                &&& final(w)@ == old(w)@ + code.bits
                &&& final(y_line)@ == code.y
                &&& final(c_line)@ == code.c
                &&& final(y_moving)@ == code.y_moving
                &&& final(c_moving)@ == code.c_moving
                &&& final(not_trans)@ == code.not_trans
                &&& extras == code.extras
            }),
    {
        let ghost y_spans = clusters::spans(y_clusters@);
        let ghost y_ps = PlaneState {
            line: y_line@,
            not_trans: not_trans@,
            moving: y_moving@,
            extras: 0,
        };
        let has_chroma = c_clusters.len() > 0;
        let mut extras = Self::code_luma_clusters(
            w,
            y_clusters,
            y_input,
            y_line,
            prev,
            prev_not_trans,
            subsampled,
            extra_ok,
            has_chroma,
            not_trans,
            y_moving,
            Ghost(ctx.luma()),
        );
        proof {
            coding::lemma_clusters_code(ctx.luma(), y_spans, 0, y_ps, y_input@, extra_ok, has_chroma);
            bits::lemma_bits_of_len(COLOR_ESCAPE as nat, 8);
        }
        let ghost y_bits = coding::clusters_code(
            ctx.luma(),
            y_spans,
            0,
            y_ps,
            y_input@,
            extra_ok,
            has_chroma,
        ).0;
        assert(y_bits.len() <= 2590);
        y_line[WIDTH - 1] = BLANKING;
        if has_chroma {
            // Color escape code (invalid PCM 00001001, §1.5.4).
            w.put_bits(COLOR_ESCAPE, 8);
            let ghost c_ps = PlaneState {
                line: c_line@,
                not_trans: dpcm::none_omitted(),
                moving: c_moving@,
                extras: 0,
            };
            proof {
                coding::lemma_clusters_code(
                    ctx.chroma(),
                    clusters::spans(c_clusters@),
                    0,
                    c_ps,
                    c_input@,
                    extra_ok,
                    false,
                );
            }
            let n = Self::code_chroma_clusters(
                w,
                c_clusters,
                c_input,
                c_line,
                subsampled,
                extra_ok,
                c_moving,
                Ghost(ctx.chroma()),
            );
            extras += n;
        }
        proof {
            let tail = if has_chroma {
                bits::bits_of(COLOR_ESCAPE as nat, 8) + coding::clusters_code(
                    ctx.chroma(),
                    clusters::spans(c_clusters@),
                    0,
                    PlaneState {
                        line: old(c_line)@,
                        not_trans: dpcm::none_omitted(),
                        moving: old(c_moving)@,
                        extras: 0,
                    },
                    c_input@,
                    extra_ok,
                    false,
                ).0
            } else {
                Seq::empty()
            };
            assert(w@ =~= old(w)@ + (y_bits + tail));
        }
        extras
    }

    /// Motion detection and cluster coding of a line.
    /// Returns the mask of untransmitted moving elements (for D → C).
    fn code_moving_line(
        &mut self,
        f: usize,
        l: usize,
        input: &FieldInput,
        subsampled: bool,
        prev_not_trans: &[bool; WIDTH],
    ) -> (not_trans: [bool; WIDTH])
        requires
            old(self).counting(),
            old(self)@.wf_but(2),
            old(self)@.bits.len() + 4000 <= u64::MAX,
            threshold(old(self)@.occupancy) <= 253,
            f < 2,
            l < LINES_PER_FIELD,
            input@.wf(),
        ensures
            final(self).counting(),
            ({
                let code = coding::moving_line(
                    old(self)@.context(f as int, l as int, subsampled, prev_not_trans@),
                    old(self)@.line(f as int, l as int),
                    input@.y[l as int],
                    input@.c[l as int],
                    threshold(old(self)@.occupancy),
                    below(old(self)@.occupancy, EXTRA_OK_BELOW as nat),
                );
                &&& not_trans@ == code.not_trans
                &&& final(self)@ == line_counted(
                    old(self)@.with_code(f as int, l as int, code),
                    f as int,
                    l as int,
                    false,
                    false,
                    subsampled,
                    code,
                )
            }),
    {
        proof {
            reveal(coding::moving_line);
        }
        let ghost start = self@;
        let ghost ctx = self@.context(f as int, l as int, subsampled, prev_not_trans@);
        let ghost store = self@.line(f as int, l as int);
        let ghost y_in = input@.y[l as int];
        let ghost c_in = input@.c[l as int];
        assert(input.y@[l as int]@ == y_in);
        assert(input.c@[l as int]@ == c_in);
        assert(self@.fields[f as int].wf());
        assert(self@.fields[f as int] == self.state.store[f as int]@);
        let parity: usize = spec_line_number(f, l) % 2;
        let thr = self.motion_threshold();
        let extra_ok = self.below(EXTRA_OK_BELOW);
        let ghost code = coding::moving_line(ctx, store, y_in, c_in, thr as int, extra_ok);
        let ghost counted = line_counted(
            start.with_code(f as int, l as int, code),
            f as int,
            l as int,
            false,
            false,
            subsampled,
            code,
        );

        let mut y_line = self.state.store[f].y[l];
        let mut c_line = self.state.store[f].c[l];
        let mut y_moving = self.state.store[f].y_moving[l];
        let mut c_moving = self.state.store[f].c_moving[l];
        assert(LineStore { y: y_line@, c: c_line@, y_moving: y_moving@, c_moving: c_moving@ }
            == store);
        let (y_clusters, c_clusters) = Self::find_clusters(
            &input.y[l],
            &input.c[l],
            &y_line,
            &c_line,
            thr,
            subsampled,
            parity,
            Ghost(ctx),
        );
        proof {
            coding::lemma_spans_codable(ctx, y_in, c_in, store.y, store.c, thr as int);
            lemma_moving_line(ctx, store, y_in, c_in, thr as int, extra_ok);
        }

        let mut not_trans = [false; WIDTH];
        assert(not_trans@ =~= dpcm::none_omitted());
        if y_clusters.len() == 0 && c_clusters.len() == 0 {
            self.stats.empty_lines += 1;
            proof {
                lemma_with_empty_line(start, f as int, l as int);
                assert(self@ =~= counted);
            }
            return not_trans;
        }
        let prev_y: Option<[u8; WIDTH]> = if l > 0 {
            Some(self.state.store[f].y[l - 1])
        } else {
            None
        };
        let extras = Self::code_clusters(
            &mut self.state.w,
            &y_clusters,
            &c_clusters,
            &input.y[l],
            &input.c[l],
            &mut y_line,
            &mut c_line,
            &mut y_moving,
            &mut c_moving,
            prev_y.as_ref(),
            prev_not_trans,
            subsampled,
            extra_ok,
            &mut not_trans,
            Ghost(ctx),
        );
        assert(self.state.w@.len() == start.bits.len() + code.bits.len());
        self.stats.luma_clusters += y_clusters.len() as u64;
        self.stats.chroma_clusters += c_clusters.len() as u64;
        self.stats.extra_elements += extras;
        if subsampled {
            self.stats.subsampled_lines += 1;
        }
        let ghost written = self@;
        assert(written.fields == start.fields);
        self.put_line(f, l, y_line, c_line, y_moving, c_moving);
        proof {
            assert(self@.fields == counted.fields);
            assert(self@ =~= counted);
        }
        not_trans
    }
}

impl Encoder {
    /// Picks the PCM lines for this field (systematic or forced refresh,
    /// §1.5.5). Strategy: fast bootstrap as long as some lines have never been
    /// transmitted, then one line per field in rotation when the buffer allows.
    fn schedule_pcm_lines(&mut self, f: usize) -> (lines: Vec<bool>)
        requires
            old(self)@.wf_but(2),
            old(self)@.bits.len() <= u64::MAX,
            f < 2,
        ensures
            lines@ == scheduled(old(self)@, f as int).0,
            lines@.len() == LINES_PER_FIELD,
            0 <= scheduled(old(self)@, f as int).1 < LINES_PER_FIELD,
            final(self).counting() == old(self).counting(),
            final(self)@ == (EncView {
                refresh_ptr: old(self)@.refresh_ptr.update(
                    f as int,
                    scheduled(old(self)@, f as int).1,
                ),
                ..old(self)@
            }),
    {
        let ghost start = self@;
        let ghost refreshed = self@.refreshed[f as int];
        let mut lines: Vec<bool> = vec![false; LINES_PER_FIELD];
        let mut bootstrap = false;
        let mut l: usize = 0;
        while l < LINES_PER_FIELD
            invariant
                l <= LINES_PER_FIELD,
                f < 2,
                self == old(self),
                refreshed == self.state.refreshed[f as int]@,
                refreshed.len() == LINES_PER_FIELD,
                bootstrap == exists|i: int| 0 <= i < l && !#[trigger] refreshed[i],
            decreases LINES_PER_FIELD - l,
        {
            if !self.state.refreshed[f][l] {
                bootstrap = true;
            }
            l += 1;
        }
        assert(bootstrap == bootstrapping(refreshed));
        let mut budget: u128 = if bootstrap {
            if 100 * self.state.occupancy >= BOOTSTRAP_FILL_TO * BUFFER_UNITS {
                0
            } else {
                (BOOTSTRAP_FILL_TO * BUFFER_UNITS - 100 * self.state.occupancy) / (100 * PCM_LINE_BITS
                    * UNITS_PER_BIT)
            }
        } else if self.below(PCM_REFRESH_BELOW) {
            1
        } else {
            0
        };
        let mut ptr = self.state.refresh_ptr[f];
        assert(ptr == start.refresh_ptr[f as int]);
        let mut visited: usize = 0;
        let ghost plan = scheduled(start, f as int);
        assert(lines@ =~= Seq::new(LINES_PER_FIELD as nat, |l: int| false));
        while budget > 0 && visited < LINES_PER_FIELD
            invariant
                visited <= LINES_PER_FIELD,
                f < 2,
                ptr < LINES_PER_FIELD,
                lines@.len() == LINES_PER_FIELD,
                self == old(self),
                refreshed == self.state.refreshed[f as int]@,
                refreshed.len() == LINES_PER_FIELD,
                picked(
                    refreshed,
                    !bootstrap,
                    ptr as int,
                    visited as int,
                    budget as nat,
                    lines@,
                ) == plan,
            decreases LINES_PER_FIELD - visited,
        {
            // Priority to never-transmitted lines.
            if !bootstrap || !self.state.refreshed[f][ptr] {
                lines[ptr] = true;
                budget -= 1;
            }
            ptr = (ptr + 1) % LINES_PER_FIELD;
            visited += 1;
        }
        self.state.refresh_ptr[f] = ptr;
        proof {
            let done = EncView {
                refresh_ptr: start.refresh_ptr.update(f as int, plan.1),
                ..start
            };
            assert(self@.refresh_ptr =~= done.refresh_ptr);
            assert(self@.refreshed =~= done.refreshed);
            assert(self@ =~= done);
        }
        lines
    }

    /// Codes a line with its start code. Returns the mask of its untransmitted
    /// moving elements.
    fn encode_line(
        &mut self,
        f: usize,
        l: usize,
        input: &FieldInput,
        pcm: bool,
        prev_not_trans: &[bool; WIDTH],
    ) -> (not_trans: [bool; WIDTH])
        requires
            old(self).counting(),
            old(self)@.wf_but(2),
            old(self)@.bits.len() + 5000 <= u64::MAX,
            f < 2,
            l < LINES_PER_FIELD,
            input@.wf(),
        ensures
            final(self).wf(),
            final(self)@ == line_sent(
                old(self)@,
                f as int,
                l as int,
                input@,
                pcm,
                prev_not_trans@,
            ),
            not_trans@ == line_code(
                old(self)@,
                f as int,
                l as int,
                input@,
                pcm,
                prev_not_trans@,
            ).not_trans,
    {
        let ghost start = self@;
        let panic = self.above(PANIC_AT);
        let subsampled = !pcm && !panic && self.above(SUBSAMPLE_AT);
        let ghost header = start_code(start, f as int, l as int, subsampled);
        let ghost code = line_code(start, f as int, l as int, input@, pcm, prev_not_trans@);
        let before = self.state.w.bit_len();
        if l == 0 {
            self.write_fst(f, subsampled);
        } else {
            self.write_lst(subsampled, spec_line_number(f, l));
        }
        proof {
            lemma_start_code(start, f as int, l as int, subsampled);
            lemma_line_code(start, f as int, l as int, input@, pcm, prev_not_trans@);
            lemma_line_sent(start, f as int, l as int, input@, pcm, prev_not_trans@);
        }
        let ghost sent = start.sent(header);
        assert(self@ == sent);
        let not_trans = if pcm {
            self.code_pcm_line(f, l, input);
            [false; WIDTH]
        } else if panic {
            // Buffer almost full: empty line (the image freezes).
            self.stats.panic_lines += 1;
            self.stats.empty_lines += 1;
            proof {
                lemma_with_empty_line(sent, f as int, l as int);
                assert(sent.line(f as int, l as int) == start.line(f as int, l as int));
            }
            [false; WIDTH]
        } else {
            self.code_moving_line(f, l, input, subsampled, prev_not_trans)
        };
        assert(not_trans@ =~= code.not_trans);
        let ghost counted = line_counted(
            sent.with_code(f as int, l as int, code),
            f as int,
            l as int,
            pcm,
            panic,
            subsampled,
            code,
        );
        assert(self@ =~= counted);
        let bits = self.state.w.bit_len() - before;
        assert(self@.bits.len() == start.bits.len() + header.len() + code.bits.len());
        self.charge(bits);
        self.drain(1);
        not_trans
    }

    /// Codes a field.
    fn encode_field(&mut self, f: usize, input: &FieldInput)
        requires
            old(self).counting(),
            old(self)@.wf_but(1),
            old(self)@.bits.len() + 490_000 <= u64::MAX,
            f < 2,
            input@.wf(),
        ensures
            final(self).wf(),
            final(self)@ == field_sent(old(self)@, f as int, input@),
            old(self)@.bits.len() + 20 <= final(self)@.bits.len() <= old(self)@.bits.len() + 480_000,
    {
        let ghost start = self@;
        let pcm_lines = self.schedule_pcm_lines(f);
        self.stats.fields_coded += 1;
        assert(self@.fields[f as int].wf()) by {
            assert(start.fields[0].wf() && start.fields[1].wf());
        }
        self.state.store[f].clear_moving();
        let ghost whole = field_sent(start, f as int, input@);
        proof {
            reveal(field_sent);
            let opened = field_opened(start, f as int);
            assert(self@.fields =~= opened.fields);
            assert(self@.refresh_ptr =~= opened.refresh_ptr);
            assert(self@.refreshed =~= opened.refreshed);
            assert(self@ =~= opened);
        }
        // "Untransmitted subsampled moving area" mask of the previous line,
        // for the D → C substitution (§1.4.1.4.1).
        let mut prev_not_trans = [false; WIDTH];
        assert(prev_not_trans@ =~= dpcm::none_omitted());
        assert(self@.wf_but(2)) by {
            assert(start.fields[0].wf() && start.fields[1].wf());
            assert(start.fields[f as int].at_rest().wf());
        }
        let mut l: usize = 0;
        while l < LINES_PER_FIELD
            invariant
                l <= LINES_PER_FIELD,
                f < 2,
                input@.wf(),
                self.counting(),
                self@.wf_but(2),
                l > 0 ==> self@.wf(),
                pcm_lines@.len() == LINES_PER_FIELD,
                pcm_lines@ == scheduled(start, f as int).0,
                start.bits.len() + 490_000 <= u64::MAX,
                start.bits.len() + (if l > 0 {
                    20
                } else {
                    0int
                }) <= self@.bits.len(),
                self@.bits.len() <= start.bits.len() + 3300 * l,
                lines_sent(self@, f as int, l as int, input@, pcm_lines@, prev_not_trans@) == whole,
            decreases LINES_PER_FIELD - l,
        {
            proof {
                lemma_line_sent(
                    self@,
                    f as int,
                    l as int,
                    input@,
                    sends_pcm(self@, f as int, l as int, pcm_lines@[l as int]),
                    prev_not_trans@,
                );
            }
            let pcm = pcm_lines[l] && self.finds_room(f, l);
            prev_not_trans = self.encode_line(f, l, input, pcm, &prev_not_trans);
            l += 1;
        }
    }

    /// Interpolates the omitted field 2 of the frame before, if there is one,
    /// now that field 1 is coded.
    fn interpolate_pending(&mut self)
        requires
            old(self).wf(),
        ensures
            final(self).wf(),
            final(self)@ == (match old(self)@.saved_b1 {
                Some(b1) => EncView {
                    fields: old(self)@.fields.update(
                        1,
                        codec::interpolated(old(self)@.fields[1], 1, b1, old(self)@.fields[0]),
                    ),
                    saved_b1: None,
                    ..old(self)@
                },
                None => old(self)@,
            }),
    {
        let saved = self.state.saved_b1.take();
        match saved {
            Some(b1) => {
                let a1 = self.state.store[0].clone();
                interpolate_omitted_field(&mut self.state.store[1], 1, &b1, &a1);
                proof {
                    let done = EncView {
                        fields: old(self)@.fields.update(
                            1,
                            codec::interpolated(
                                old(self)@.fields[1],
                                1,
                                b1@,
                                old(self)@.fields[0],
                            ),
                        ),
                        saved_b1: None,
                        ..old(self)@
                    };
                    assert(self@.fields =~= done.fields);
                    assert(self@ =~= done);
                }
            },
            None => {},
        }
    }

    /// Omits field 2: nothing is emitted; the next FST-1 (two FSTs with the
    /// same number) signals it to the decoder (§1.5.2.2).
    fn omit_field(&mut self)
        requires
            old(self).wf(),
            old(self)@.stats.fields_omitted < old(self)@.bits.len() <= u64::MAX,
        ensures
            final(self).wf(),
            final(self)@ == (EncView {
                saved_b1: Some(old(self)@.fields[0]),
                stats: EncCounts {
                    fields_omitted: old(self)@.stats.fields_omitted + 1,
                    ..old(self)@.stats
                },
                ..old(self)@
            }).drained(LINES_PER_FIELD as nat),
    {
        self.state.saved_b1 = Some(self.state.store[0].clone());
        self.stats.fields_omitted += 1;
        assert(self@ =~= EncView {
            saved_b1: Some(old(self)@.fields[0]),
            stats: EncCounts {
                fields_omitted: old(self)@.stats.fields_omitted + 1,
                ..old(self)@.stats
            },
            ..old(self)@
        });
        self.drain(LINES_PER_FIELD);
    }

    /// Encodes one frame (two fields). The frame is converted to the H.120
    /// source format by `source::ingest`.
    pub fn encode_frame(&mut self, frame: &Frame444)
        requires
            old(self).wf(),
            source::can_ingest(frame@),
            old(self)@.bits.len() + MAX_FRAME_BITS <= u64::MAX,
        ensures
            final(self).wf(),
            final(self)@ == frame_sent(old(self)@, frame@),
            final(self)@.bits.len() <= old(self)@.bits.len() + MAX_FRAME_BITS,
    {
        let ghost start = self@;
        let fields = ingest(frame, self.state.cfg.mono);
        proof {
            source::lemma_ingested_legal(frame@, start.mono, 0);
            source::lemma_ingested_legal(frame@, start.mono, 1);
        }
        self.stats.frames += 1;
        let ghost counted = EncView {
            stats: EncCounts { frames: start.stats.frames + 1, ..start.stats },
            ..start
        };
        assert(self@ =~= counted);
        proof {
            lemma_field_sent(counted, 0, fields[0]@);
        }
        self.encode_field(0, &fields[0]);

        // If field 2 of the previous frame was omitted, the decoder
        // interpolates it after receiving this field 1: the encoder does the
        // same to stay in perfect lockstep (§1.4.1.4.2).
        self.interpolate_pending();
        assert(self@ == first_field_sent(start, frame@));
        if self.above(FIELD_SKIP_AT) {
            self.omit_field();
        } else {
            self.encode_field(1, &fields[1]);
        }
    }

    /// Ends the stream and returns the bytes.
    pub fn finish(self) -> (bytes: Vec<u8>)
        requires
            self.wf(),
        ensures
            bytes@.len() == (self@.bits.len() + 7) / 8,
            bits::bits_of_bytes(bytes@) == self@.bits + bits::zeros(
                (8 * bytes@.len() - self@.bits.len()) as nat,
            ),
    {
        self.state.w.finish()
    }

    /// The number of bits written so far.
    pub fn bits_written(&self) -> (n: u64)
        requires
            self.wf(),
        ensures
            n == self@.bits.len(),
    {
        self.state.w.bit_len()
    }

    /// State of the two reconstructed fields.
    pub fn stores(&self) -> (stores: &[FieldStore; 2])
        ensures
            fields_of(*stores) == self@.fields,
    {
        &self.state.store
    }

    /// True if the interpolation of an omitted field is still pending
    /// (it only happens when coding the next field 1).
    pub fn has_pending_interpolation(&self) -> (pending: bool)
        ensures
            pending == self@.saved_b1 is Some,
    {
        self.state.saved_b1.is_some()
    }
}

/// An empty line leaves the stores as they are.
pub proof fn lemma_with_empty_line(ev: EncView, f: int, l: int)
    requires
        0 <= f < ev.fields.len(),
        ev.fields[f].wf(),
        0 <= l < LINES_PER_FIELD,
    ensures
        ev.with_code(f, l, coding::empty_line(ev.line(f, l))) == ev,
{
    let field = ev.fields[f];
    let next = ev.with_code(f, l, coding::empty_line(ev.line(f, l)));
    assert(next.fields[f].y =~= field.y);
    assert(next.fields[f].c =~= field.c);
    assert(next.fields[f].y_moving =~= field.y_moving);
    assert(next.fields[f].c_moving =~= field.c_moving);
    assert(next.fields =~= ev.fields);
    assert(next.bits =~= ev.bits);
    assert(next =~= ev);
}

/// Marks the elements from `s0` to `e1` as moving.
fn mark<const N: usize>(moving: &mut [bool; N], s0: usize, e1: usize)
    requires
        s0 <= e1 < N,
    ensures
        final(moving)@ == dpcm::marked(old(moving)@, s0 as int, e1 as int),
{
    let mut e: usize = s0;
    while e <= e1
        invariant
            s0 <= e <= e1 + 1,
            e1 < N,
            moving@.len() == N,
            old(moving)@.len() == N,
            forall|i: int|
                0 <= i < N ==> #[trigger] moving@[i] == ((s0 <= i < e) || old(moving)@[i]),
        decreases e1 + 1 - e,
    {
        moving[e] = true;
        e += 1;
    }
    assert(moving@ =~= dpcm::marked(old(moving)@, s0 as int, e1 as int));
}

} // verus!
