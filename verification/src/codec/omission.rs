//! What stands for a field that was omitted.

use vstd::prelude::*;
use crate::codec;
use crate::codec::reconstruction;
use crate::codec::FieldView;

verus! {

/// A sample of line `l` of a field, blanking (128) outside it.
pub open spec fn sample(lines: Seq<Seq<u8>>, l: int, e: int) -> int {
    if 0 <= l < 143 {
        lines[l][e] as int
    } else {
        128
    }
}

/// An element of line `l` of a field moves; nothing moves outside it.
pub open spec fn moves(lines: Seq<Seq<bool>>, l: int, e: int) -> bool {
    0 <= l < 143 && lines[l][e]
}

/// The line of a field of the other number right above line `j` of the omitted field:
/// line j of field 1 stands above line j of field 2, which stands above line j + 1 of
/// field 1.
pub open spec fn line_over(omitted: int, j: int) -> int {
    if omitted == 1 {
        j
    } else {
        j - 1
    }
}

/// Luminance element `e` of line `j` of an omitted field: it moves if one of the four
/// elements above and below it moves, in the field before or the field behind. A moving
/// element is the mean of the means of the two pairs; one that does not move stays. The
/// last element of a line is at blanking level.
pub proof fn omitted_luma_is_interpolated(
    omitted: FieldView,
    n: int,
    before: FieldView,
    after: FieldView,
    j: int,
    e: int,
    first: int,
    second: int,
)
    requires
        n == 0 || n == 1,
        0 <= j < 143,
        0 <= e < 256,
        ({
            let (up, down) = (line_over(n, j), line_over(n, j) + 1);
            &&& reconstruction::is_mean(
                first,
                sample(before.y, up, e),
                sample(before.y, down, e),
            )
            &&& reconstruction::is_mean(second, sample(after.y, up, e), sample(after.y, down, e))
        }),
    ensures
        ({
            let got = codec::interpolated(omitted, n, before, after);
            let (up, down) = (line_over(n, j), line_over(n, j) + 1);
            let moving = moves(before.y_moving, up, e) || moves(before.y_moving, down, e) || moves(
                after.y_moving,
                up,
                e,
            ) || moves(after.y_moving, down, e);
            &&& got.y.len() == 143 && got.y[j].len() == 256
            &&& got.y_moving.len() == 143 && got.y_moving[j].len() == 256
            &&& got.y_moving[j][e] == moving
            &&& e == 255 ==> got.y[j][e] == 128
            &&& e < 255 && moving ==> reconstruction::is_mean(got.y[j][e] as int, first, second)
            &&& e < 255 && !moving ==> got.y[j][e] == omitted.y[j][e]
        }),
{
}

/// Chrominance element `e` of line `j` of an omitted field: it moves if one of the four
/// elements above and below it moves. A moving element is the mean of the elements of
/// the line that carries the same component in the field before and the field behind:
/// the line below for field 2, the line above for field 1.
pub proof fn omitted_chroma_is_interpolated(
    omitted: FieldView,
    n: int,
    before: FieldView,
    after: FieldView,
    j: int,
    e: int,
)
    requires
        n == 0 || n == 1,
        0 <= j < 143,
        0 <= e < 52,
    ensures
        ({
            let got = codec::interpolated(omitted, n, before, after);
            let (up, down) = (line_over(n, j), line_over(n, j) + 1);
            let same = if n == 1 {
                j + 1
            } else {
                j - 1
            };
            let moving = moves(before.c_moving, up, e) || moves(before.c_moving, down, e) || moves(
                after.c_moving,
                up,
                e,
            ) || moves(after.c_moving, down, e);
            &&& got.c.len() == 143 && got.c[j].len() == 52
            &&& got.c_moving.len() == 143 && got.c_moving[j].len() == 52
            &&& got.c_moving[j][e] == moving
            &&& moving ==> reconstruction::is_mean(
                got.c[j][e] as int,
                sample(before.c, same, e),
                sample(after.c, same, e),
            )
            &&& !moving ==> got.c[j][e] == omitted.c[j][e]
        }),
{
}

/// The line whose chrominance is used carries the same component as the omitted line:
/// the components alternate from line to line, and from field to field.
pub proof fn interpolated_component_is_the_same(n: int, j: int)
    requires
        n == 0 || n == 1,
        0 <= j,
    ensures
        codec::component(n, j) == codec::component(
            1 - n,
            if n == 1 {
                j + 1
            } else {
                j - 1
            },
        ),
        codec::component(n, j) != codec::component(n, j + 1),
        codec::component(0, j) != codec::component(1, j),
        codec::component(0, 0) == codec::ChromaComp::Cb,
{
}

/// The interpolation does not tell the field before from the field behind.
pub proof fn interpolation_is_symmetric(
    omitted: FieldView,
    n: int,
    before: FieldView,
    after: FieldView,
)
    requires
        n == 0 || n == 1,
    ensures
        codec::interpolated(omitted, n, before, after) == codec::interpolated(
            omitted,
            n,
            after,
            before,
        ),
{
    assert(codec::interpolated(omitted, n, before, after) =~~= codec::interpolated(
        omitted,
        n,
        after,
        before,
    ));
}

} // verus!
