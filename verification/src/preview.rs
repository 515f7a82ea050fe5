//! Previews: an image reduced by a whole number, so that it is not wider than
//! wanted.

use crate::area::Window;
use crate::black_level::{
    area_sum, law_equal_samples_sum_up, law_every_sample_is_summed_once, row_sum, rows_sum,
};
use crate::image::{crop_of, law_crop_is_a_view, x3f_crop_area};
use vstd::prelude::*;

verus! {

/// How many columns of an image become one, so that it is not wider than
/// `max_width`.
pub open spec fn reduction_of(columns: u32, max_width: u32) -> int {
    (columns + max_width - 1) / max_width as int
}

/// A preview is not wider than wanted, and no reduction by less would do.
pub proof fn law_preview_is_not_too_wide(columns: u32, max_width: u32)
    requires
        0 < columns,
        0 < max_width,
    ensures
        0 < reduction_of(columns, max_width),
        columns <= reduction_of(columns, max_width) * max_width,
        (reduction_of(columns, max_width) - 1) * max_width < columns,
{
    let (c, m) = (columns as int, max_width as int);
    let a = c + m - 1;
    vstd::arithmetic::div_mod::lemma_fundamental_div_mod(a, m);
    vstd::arithmetic::div_mod::lemma_mod_bound(a, m);
    let r = a / m;
    assert(m * r == r * m) by (nonlinear_arith);
    assert((r - 1) * m == r * m - m) by (nonlinear_arith);
    assert(r > 0) by (nonlinear_arith)
        requires
            r * m + a % m == a,
            a % m < m,
            a >= m,
            m > 0,
    ;
}

/// The size of a preview.
pub struct PreviewShape {
    /// How many columns and rows of the image become one.
    pub reduction: u32,
    pub rows: u32,
    pub columns: u32,
}

/// The size of the preview of an image that is not to be wider than `max_width`.
pub fn preview_shape(image: &Window, max_width: u32) -> (r: PreviewShape)
    requires
        0 < image.columns,
        0 < max_width,
        image.columns + max_width - 1 <= u32::MAX,
    ensures
        r.reduction == reduction_of(image.columns, max_width),
        r.reduction > 0,
        r.rows == image.rows / r.reduction,
        r.columns == image.columns / r.reduction,
{
    proof {
        law_preview_is_not_too_wide(image.columns, max_width);
    }
    let reduction: u32 = (image.columns + (max_width - 1)) / max_width;
    PreviewShape { reduction, rows: image.rows / reduction, columns: image.columns / reduction }
}

/// The rectangle of an image that becomes one pixel of its preview, as (first
/// column, first row, last column, last row).
pub open spec fn block_rect(reduction: u32, row: u32, column: u32) -> Seq<u32> {
    let (x, y) = (column * reduction, row * reduction);
    seq![x as u32, y as u32, (x + reduction - 1) as u32, (y + reduction - 1) as u32]
}

/// The rectangle of a pixel of the preview lies in the image.
proof fn lemma_block(size: u32, reduction: u32, at: u32)
    requires
        0 < reduction,
        at < size / reduction,
    ensures
        0 <= at * reduction,
        at * reduction + reduction <= size,
{
    let (s, r, a) = (size as int, reduction as int, at as int);
    vstd::arithmetic::div_mod::lemma_fundamental_div_mod(s, r);
    vstd::arithmetic::div_mod::lemma_mod_bound(s, r);
    assert(0 <= a * r && a * r + r <= r * (s / r)) by (nonlinear_arith)
        requires
            0 <= a,
            a + 1 <= s / r,
            r > 0,
    ;
}

proof fn lemma_row_grows(data: Seq<u16>, w: Window, channel: int, row: int, a: nat, b: nat)
    requires
        a <= b,
    ensures
        row_sum(data, w, channel, row, a) <= row_sum(data, w, channel, row, b),
    decreases b - a,
{
    if a < b {
        lemma_row_grows(data, w, channel, row, a, (b - 1) as nat);
    }
}

proof fn lemma_rows_grow(data: Seq<u16>, w: Window, channel: int, a: nat, b: nat)
    requires
        a <= b,
    ensures
        rows_sum(data, w, channel, a) <= rows_sum(data, w, channel, b),
    decreases b - a,
{
    if a < b {
        lemma_rows_grow(data, w, channel, a, (b - 1) as nat);
    }
}

/// The sum of all samples of a window in one channel, if it has 32 bits.
fn checked_sum(data: &Vec<u16>, w: &Window, channel: usize) -> (r: Option<u32>)
    requires
        w.inside(data@.len() as int),
        channel < w.channels,
    ensures
        match r {
            Some(sum) => sum == area_sum(data@, *w, channel as int),
            None => area_sum(data@, *w, channel as int) > u32::MAX,
        },
{
    let ghost c = channel as int;
    let mut sum: u32 = 0;
    let mut row: u32 = 0;
    while row < w.rows
        invariant
            row <= w.rows,
            w.inside(data@.len() as int),
            channel < w.channels,
            c == channel,
            sum == rows_sum(data@, *w, c, row as nat),
        decreases w.rows - row,
    {
        let ghost before = sum as nat;
        let mut column: u32 = 0;
        while column < w.columns
            invariant
                row < w.rows,
                column <= w.columns,
                w.inside(data@.len() as int),
                channel < w.channels,
                c == channel,
                before == rows_sum(data@, *w, c, row as nat),
                sum == before + row_sum(data@, *w, c, row as int, column as nat),
            decreases w.columns - column,
        {
            let i: usize = w.at(row as usize, column as usize, channel, data.len());
            match sum.checked_add(data[i] as u32) {
                Some(more) => {
                    sum = more;
                },
                None => {
                    proof {
                        lemma_row_grows(
                            data@,
                            *w,
                            c,
                            row as int,
                            (column + 1) as nat,
                            w.columns as nat,
                        );
                        lemma_rows_grow(data@, *w, c, (row + 1) as nat, w.rows as nat);
                    }
                    return None;
                },
            }
            column = column + 1;
        }
        row = row + 1;
    }
    Some(sum)
}

/// The sum of the samples in one channel that become one sample of the preview,
/// if it has 32 bits.
pub fn block_sum(
    data: &Vec<u16>,
    image: &Window,
    reduction: u32,
    row: u32,
    column: u32,
    channel: usize,
) -> (r: Option<u32>)
    requires
        image.inside(data@.len() as int),
        channel < image.channels,
        0 < reduction,
        row < image.rows / reduction,
        column < image.columns / reduction,
    ensures
        ({
            let sum = area_sum(
                data@,
                crop_of(block_rect(reduction, row, column), *image),
                channel as int,
            );
            match r {
                Some(v) => v == sum,
                None => sum > u32::MAX,
            }
        }),
{
    proof {
        lemma_block(image.columns, reduction, column);
        lemma_block(image.rows, reduction, row);
    }
    let (x, y): (u32, u32) = (column * reduction, row * reduction);
    let coord: [u32; 4] = [x, y, x + (reduction - 1), y + (reduction - 1)];
    assert(coord@ =~= block_rect(reduction, row, column));
    match x3f_crop_area(&coord, image, data.len()) {
        Some(block) => checked_sum(data, &block, channel),
        None => {
            assert(false);
            None
        },
    }
}

/// A sample of the preview sums up the samples of its own square of the image, whose rows
/// and columns, divided by the reduction, are its row and column. One that changes there
/// changes the sum by as much; equal samples add up; others do not matter.
pub proof fn law_blocks_sum_their_squares(
    data: Seq<u16>,
    other: Seq<u16>,
    image: Window,
    reduction: u32,
    row: u32,
    column: u32,
    channel: int,
    y: int,
    x: int,
    v: u16,
)
    requires
        image.inside(data.len() as int),
        data.len() <= usize::MAX,
        other.len() == data.len(),
        0 <= channel < image.channels,
        0 < reduction,
        row < image.rows / reduction,
        column < image.columns / reduction,
        0 <= y < image.rows,
        0 <= x < image.columns,
        forall|r: int, c: int|
            0 <= r < image.rows && 0 <= c < image.columns && !(r == y && c == x)
                ==> #[trigger] other[image.index(r, c, channel)] == data[image.index(
                r,
                c,
                channel,
            )],
    ensures
        ({
            let block = crop_of(block_rect(reduction, row, column), image);
            let i = image.index(y, x, channel);
            let inside = y / reduction as int == row && x / reduction as int == column;
            &&& area_sum(other, block, channel) - area_sum(data, block, channel) == (if inside {
                other[i] - data[i]
            } else {
                0
            })
            &&& (forall|r: int, c: int|
                r / reduction as int == row && c / reduction as int == column ==> #[trigger] data[
                image.index(r, c, channel)] == v) ==> area_sum(data, block, channel) == v * (
            reduction * reduction)
        }),
{
    let coord = block_rect(reduction, row, column);
    let block = crop_of(coord, image);
    let n = reduction as int;
    lemma_block(image.columns, reduction, column);
    lemma_block(image.rows, reduction, row);
    law_crop_is_a_view(coord, image, data.len() as int);
    let (y0, x0) = (row * reduction, column * reduction);
    assert(coord[0] == x0 && coord[1] == y0);
    assert(block.rows == n && block.columns == n);
    assert forall|r: int, c: int| 0 <= r < n && 0 <= c < n implies block.in_range(r, c, channel)
        && #[trigger] block.index(r, c, channel) == image.index(r + y0, c + x0, channel) && (r
        + y0) / n == row && (c + x0) / n == column by {
        assert(block.in_range(r, c, channel));
        vstd::arithmetic::div_mod::lemma_fundamental_div_mod_converse(r + y0, n, row as int, r);
        vstd::arithmetic::div_mod::lemma_fundamental_div_mod_converse(c + x0, n, column as int, c);
    }
    vstd::arithmetic::div_mod::lemma_fundamental_div_mod(y, n);
    vstd::arithmetic::div_mod::lemma_mod_bound(y, n);
    vstd::arithmetic::div_mod::lemma_fundamental_div_mod(x, n);
    vstd::arithmetic::div_mod::lemma_mod_bound(x, n);
    let inside = y / n == row && x / n == column;
    assert(n * (y / n) == (y / n) * n && n * (x / n) == (x / n) * n) by (nonlinear_arith);
    assert forall|r: int, c: int|
        0 <= r < n && 0 <= c < n && !(r == y - y0 && c == x - x0) implies #[trigger] other[block.index(
        r,
        c,
        channel,
    )] == data[block.index(r, c, channel)] by {
        assert(block.index(r, c, channel) == image.index(r + y0, c + x0, channel));
        assert(other[image.index(r + y0, c + x0, channel)] == data[image.index(
            r + y0,
            c + x0,
            channel,
        )]);
    }
    if inside {
        law_every_sample_is_summed_once(data, other, block, channel, y - y0, x - x0);
        assert(block.index(y - y0, x - x0, channel) == image.index(y, x, channel));
    } else {
        assert(!(0 <= y - y0 < n && 0 <= x - x0 < n)) by {
            if 0 <= y - y0 < n && 0 <= x - x0 < n {
                assert(block.index(y - y0, x - x0, channel) == image.index(
                    y - y0 + y0,
                    x - x0 + x0,
                    channel,
                ));
            }
        }
        assert(other[block.index(0, 0, channel)] == data[block.index(0, 0, channel)]);
        law_every_sample_is_summed_once(data, other, block, channel, 0, 0);
    }
    if forall|r: int, c: int|
        r / n == row && c / n == column ==> #[trigger] data[image.index(r, c, channel)] == v {
        assert forall|r: int, c: int|
            0 <= r < block.rows && 0 <= c < block.columns implies #[trigger] data[block.index(
            r,
            c,
            channel,
        )] == v by {
            assert(block.index(r, c, channel) == image.index(r + y0, c + x0, channel));
            assert(data[image.index(r + y0, c + x0, channel)] == v);
        }
        law_equal_samples_sum_up(data, block, channel, v);
    }
}

} // verus!
