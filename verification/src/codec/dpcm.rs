//! The closed DPCM loop (§1.4.1.3, §1.4.1.4.1, §1.4.2.3): how a symbol moves
//! a cluster on by one element. The encoder and the decoder both follow it.

use vstd::prelude::*;
use crate::codec;
use crate::codec::{BLANKING, CHROMA_WIDTH, C_MAX, C_MIN, WIDTH, Y_MAX, Y_MIN};

verus! {

/// What the elements of a cluster are predicted from, besides their own line.
#[verifier::ext_equal]
pub struct Plane {
    /// Luminance, or else chrominance.
    pub luma: bool,
    /// The previous line of the field, if there is one.
    pub prev: Option<Seq<u8>>,
    /// The elements of the previous line that were not transmitted.
    pub prev_not_trans: Seq<bool>,
    /// The parity of the elements that a subsampled line transmits.
    pub parity: int,
    pub subsampled: bool,
}

impl Plane {
    /// The number of elements of a line.
    pub open spec fn width(self) -> int {
        if self.luma {
            WIDTH as int
        } else {
            CHROMA_WIDTH as int
        }
    }

    /// The last element that a cluster can hold (element 255 of a luminance
    /// line is never transmitted).
    pub open spec fn last_element(self) -> int {
        if self.luma {
            WIDTH - 2
        } else {
            CHROMA_WIDTH - 1
        }
    }

    /// The last element at which a cluster can start.
    pub open spec fn last_start(self) -> int {
        if self.luma {
            WIDTH - 2
        } else {
            CHROMA_WIDTH - 2
        }
    }

    /// The prediction of element `e` from element A: (A + D)/2 in luminance,
    /// A in chrominance.
    pub open spec fn prediction(self, a: u8, e: int) -> u8 {
        if self.luma {
            codec::mean(a, codec::upper_right(self.prev, self.prev_not_trans, e))
        } else {
            a
        }
    }

    /// A reconstruction held in the legal range.
    pub open spec fn held(self, v: int) -> u8 {
        if self.luma {
            codec::clip(v, Y_MIN, Y_MAX)
        } else {
            codec::clip(v, C_MIN, C_MAX)
        }
    }

    /// `v` is a legal sample.
    pub open spec fn legal(self, v: u8) -> bool {
        self.held(v as int) == v
    }
}

/// The state of a cluster that is being coded or decoded.
#[verifier::ext_equal]
pub struct Cluster {
    pub line: Seq<u8>,
    /// The elements of the line that were omitted.
    pub not_trans: Seq<bool>,
    /// The last normal element.
    pub q: int,
    /// The last transmitted element.
    pub last: int,
    /// How many extra elements there were.
    pub extras: nat,
}

/// Whether the element behind `q` is skipped by the next normal element.
pub open spec fn skips(plane: Plane, st: Cluster) -> bool {
    plane.subsampled && st.q % 2 == plane.parity
}

/// The next normal element.
pub open spec fn target(plane: Plane, st: Cluster) -> int {
    if skips(plane, st) {
        st.q + 2
    } else {
        st.q + 1
    }
}

/// Whether the skipped element was not transmitted as an extra element either,
/// and is interpolated.
pub open spec fn omits(plane: Plane, st: Cluster) -> bool {
    skips(plane, st) && st.last != st.q + 1
}

/// The prediction of the next normal element: A, or AS where A was omitted.
pub open spec fn normal_prediction(plane: Plane, st: Cluster) -> u8 {
    let t = target(plane, st);
    plane.prediction(
        if omits(plane, st) {
            st.line[st.q]
        } else {
            st.line[t - 1]
        },
        t,
    )
}

/// The prediction of the extra element behind `q`.
pub open spec fn extra_prediction(plane: Plane, st: Cluster) -> u8 {
    plane.prediction(st.line[st.q], st.q + 1)
}

/// A normal element of the given level, if the line has room for it. An
/// omitted element before it becomes the mean of its neighbours.
pub open spec fn normal_step(plane: Plane, st: Cluster, level: int) -> Option<Cluster> {
    let t = target(plane, st);
    if t > plane.last_element() {
        None
    } else {
        let x = plane.held(normal_prediction(plane, st) + level);
        let reached = st.line.update(t, x);
        if omits(plane, st) {
            Some(
                Cluster {
                    line: reached.update(st.q + 1, codec::mean(st.line[st.q], x)),
                    not_trans: st.not_trans.update(st.q + 1, true),
                    q: t,
                    last: t,
                    extras: st.extras,
                },
            )
        } else {
            Some(Cluster { line: reached, q: t, last: t, ..st })
        }
    }
}

/// An extra element of the given level, if there is room for it and it has not
/// been sent yet.
pub open spec fn extra_step(plane: Plane, st: Cluster, level: int) -> Option<Cluster> {
    let o = st.q + 1;
    if o > plane.last_element() || st.last == o {
        None
    } else {
        Some(
            Cluster {
                line: st.line.update(o, plane.held(extra_prediction(plane, st) + level)),
                last: o,
                extras: st.extras + 1,
                ..st
            },
        )
    }
}

/// An element of the given level.
pub open spec fn step(plane: Plane, st: Cluster, level: int, extra: bool) -> Option<Cluster> {
    if extra {
        extra_step(plane, st, level)
    } else {
        normal_step(plane, st, level)
    }
}

/// A cluster that starts at element `start` with the sample `pcm`.
pub open spec fn opened(line: Seq<u8>, not_trans: Seq<bool>, start: int, pcm: u8) -> Cluster {
    Cluster { line: line.update(start, pcm), not_trans, q: start, last: start, extras: 0 }
}

/// The marks with the elements from `start` to `end` set.
pub open spec fn marked(moving: Seq<bool>, start: int, end: int) -> Seq<bool> {
    Seq::new(moving.len(), |e: int| start <= e <= end || moving[e])
}

/// A luminance line with its last element at blanking level.
pub open spec fn blanked(line: Seq<u8>) -> Seq<u8> {
    line.update(WIDTH - 1, BLANKING)
}

/// No element omitted.
pub open spec fn none_omitted() -> Seq<bool> {
    Seq::new(WIDTH as nat, |e: int| false)
}

/// What a line is coded or decoded from, besides its own contents.
pub struct LineContext {
    pub prev: Option<Seq<u8>>,
    pub prev_not_trans: Seq<bool>,
    pub parity: int,
    pub subsampled: bool,
}

impl LineContext {
    /// The luminance plane of the line.
    pub open spec fn luma(self) -> Plane {
        Plane {
            luma: true,
            prev: self.prev,
            prev_not_trans: self.prev_not_trans,
            parity: self.parity,
            subsampled: self.subsampled,
        }
    }

    /// The chrominance plane of the line.
    pub open spec fn chroma(self) -> Plane {
        Plane {
            luma: false,
            prev: None,
            prev_not_trans: none_omitted(),
            parity: self.parity,
            subsampled: self.subsampled,
        }
    }
}

} // verus!
