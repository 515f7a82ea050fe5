//! The shielded areas of the sensor, and what they say about the black level.

use crate::area::{Area16, Window};
use crate::bad_pixel_sources::X3F_CAMERAID_SDQH;
use crate::image::{
    camf_four, check_camf_rect, check_column_rect, column_rect, crop_ok, crop_to,
    x3f_crop_area_camf, x3f_crop_area_column, ColSide,
};
use crate::io::X3f;
use crate::meta::{bytes_eq, camf_unsigned, prop_entry, x3f_get_camf_unsigned, x3f_get_prop_entry};
use vstd::prelude::*;
use vstd::string::StringSliceAdditionalSpecFns;

verus! {

/// Whether a camera model is one of the Merrill family.
pub open spec fn is_merrill_name(model: Seq<u8>) -> bool {
    ||| model == "SIGMA DP1 Merrill".spec_bytes()
    ||| model == "SIGMA DP2 Merrill".spec_bytes()
    ||| model == "SIGMA DP3 Merrill".spec_bytes()
    ||| model == "SIGMA SD1 Merrill".spec_bytes()
}

/// Whether a camera model is one of the Merrill family.
fn check_merrill_name(model: &[u8]) -> (r: bool)
    ensures
        r == is_merrill_name(model@),
{
    bytes_eq(model, "SIGMA DP1 Merrill".as_bytes()) || bytes_eq(
        model,
        "SIGMA DP2 Merrill".as_bytes(),
    ) || bytes_eq(model, "SIGMA DP3 Merrill".as_bytes()) || bytes_eq(
        model,
        "SIGMA SD1 Merrill".as_bytes(),
    )
}

/// The camera model that the properties name.
pub open spec fn camera_model(x3f: X3f) -> Option<Seq<u8>> {
    prop_entry(x3f, "CAMMODEL".spec_bytes())
}

/// Whether the camera is one that states its lower shield wrongly.
pub open spec fn bottom_is_wrong(x3f: X3f) -> bool {
    ||| camera_model(x3f) == Some("SIGMA DP2".spec_bytes())
    ||| camf_unsigned(x3f, "CAMERAID".spec_bytes(), 0) == Some(X3F_CAMERAID_SDQH)
}

/// Whether the camera is one of the Merrill family.
pub open spec fn spec_is_merrill_model(x3f: X3f) -> bool {
    match camera_model(x3f) {
        Some(model) => is_merrill_name(model),
        None => false,
    }
}

/// Whether the camera is one of the Merrill family.
pub fn is_merrill_model(x3f: &X3f<'_>) -> (r: bool)
    ensures
        r == spec_is_merrill_model(*x3f),
{
    match x3f_get_prop_entry(x3f, "CAMMODEL".as_bytes()) {
        Some(model) => check_merrill_name(model.as_slice()),
        None => false,
    }
}

/// Whether the camera is one whose right shield lets light through.
pub open spec fn right_is_wrong(x3f: X3f) -> bool {
    spec_is_merrill_model(x3f)
}

/// Whether the lower and the right shield are not to be used.
fn wrong_shields(x3f: &X3f<'_>) -> (r: (bool, bool))
    requires
        x3f.inv(),
    ensures
        r.0 == bottom_is_wrong(*x3f),
        r.1 == right_is_wrong(*x3f),
{
    let mut bottom: bool = match x3f_get_prop_entry(x3f, "CAMMODEL".as_bytes()) {
        Some(model) => bytes_eq(model.as_slice(), "SIGMA DP2".as_bytes()),
        None => false,
    };
    let right: bool = is_merrill_model(x3f);
    let mut camera: u32 = 0;
    if x3f_get_camf_unsigned(x3f, "CAMERAID".as_bytes(), &mut camera) {
        if camera == X3F_CAMERAID_SDQH {
            bottom = true;
        }
    }
    (bottom, right)
}

/// The shields, in the order in which they are used.
pub enum Shield {
    Top,
    Bottom,
    Left,
    Right,
}

/// The part of an image that a shield covers, if it can be used.
pub open spec fn shielded(x3f: X3f, image: Window, rescale: bool, shield: Shield) -> Option<
    Window,
> {
    match shield {
        Shield::Top => crop_to(
            x3f,
            image,
            rescale,
            camf_four(x3f, "DarkShieldTop".spec_bytes(), 4, 0),
        ),
        Shield::Bottom => if bottom_is_wrong(x3f) {
            None
        } else {
            crop_to(
                x3f,
                image,
                rescale,
                camf_four(x3f, "DarkShieldBottom".spec_bytes(), 4, 0),
            )
        },
        Shield::Left => crop_to(x3f, image, rescale, column_rect(x3f, ColSide::Left)),
        Shield::Right => if right_is_wrong(x3f) {
            None
        } else {
            crop_to(x3f, image, rescale, column_rect(x3f, ColSide::Right))
        },
    }
}

/// Whether the rectangles of the shields that are used, as far as the metadata
/// state them, can be cut out of an image of this size.
pub open spec fn shields_ok(x3f: X3f, columns: u32, rows: u32, rescale: bool) -> bool {
    let ok = |rect: Option<Seq<u32>>| crop_ok(x3f, columns, rows, rescale, rect);
    &&& ok(camf_four(x3f, "DarkShieldTop".spec_bytes(), 4, 0))
    &&& bottom_is_wrong(x3f) || ok(camf_four(x3f, "DarkShieldBottom".spec_bytes(), 4, 0))
    &&& ok(column_rect(x3f, ColSide::Left))
    &&& right_is_wrong(x3f) || ok(column_rect(x3f, ColSide::Right))
}

/// Whether the rectangles of the shields that are used can be cut out of an image
/// of this size.
pub fn check_shields(x3f: &X3f<'_>, columns: u32, rows: u32, rescale: bool) -> (r: bool)
    requires
        x3f.inv(),
    ensures
        r == shields_ok(*x3f, columns, rows, rescale),
{
    let (bottom, right): (bool, bool) = wrong_shields(x3f);
    check_camf_rect(x3f, "DarkShieldTop".as_bytes(), columns, rows, rescale) && (bottom
        || check_camf_rect(x3f, "DarkShieldBottom".as_bytes(), columns, rows, rescale))
        && check_column_rect(x3f, ColSide::Left, columns, rows, rescale) && (right
        || check_column_rect(x3f, ColSide::Right, columns, rows, rescale))
}

/// The sum of the first `n` samples of a row in one channel.
pub open spec fn row_sum(data: Seq<u16>, w: Window, channel: int, row: int, n: nat) -> nat
    decreases n,
{
    if n == 0 {
        0
    } else {
        row_sum(data, w, channel, row, (n - 1) as nat) + data[w.index(
            row,
            n - 1,
            channel,
        )] as nat
    }
}

/// The sum of the samples of the first `n` rows in one channel.
pub open spec fn rows_sum(data: Seq<u16>, w: Window, channel: int, n: nat) -> nat
    decreases n,
{
    if n == 0 {
        0
    } else {
        rows_sum(data, w, channel, (n - 1) as nat) + row_sum(
            data,
            w,
            channel,
            n - 1,
            w.columns as nat,
        )
    }
}

/// The sum of all samples of a window in one channel.
pub open spec fn area_sum(data: Seq<u16>, w: Window, channel: int) -> nat {
    rows_sum(data, w, channel, w.rows as nat)
}

/// The number of pixels of a window.
pub open spec fn pixel_count(w: Window) -> nat {
    (w.rows * w.columns) as nat
}

/// The sum of all samples of a window in one channel.
pub fn sum_channel(data: &Vec<u16>, w: &Window, channel: usize) -> (sum: u64)
    requires
        w.inside(data@.len() as int),
        channel < w.channels,
        pixel_count(*w) <= u32::MAX,
    ensures
        sum == area_sum(data@, *w, channel as int),
        sum <= pixel_count(*w) * 0xffff,
{
    let mut sum: u64 = 0;
    let mut row: usize = 0;
    let (rows, columns): (usize, usize) = (w.rows as usize, w.columns as usize);
    while row < rows
        invariant
            row <= rows,
            rows == w.rows,
            columns == w.columns,
            w.inside(data@.len() as int),
            channel < w.channels,
            pixel_count(*w) <= u32::MAX,
            sum == rows_sum(data@, *w, channel as int, row as nat),
            sum <= row * columns * 0xffff,
        decreases rows - row,
    {
        let mut column: usize = 0;
        let ghost before = sum as nat;
        assert((row + 1) * columns <= rows * columns) by (nonlinear_arith)
            requires
                row + 1 <= rows,
                columns >= 0,
        ;
        assert((row + 1) * columns == row * columns + columns) by (nonlinear_arith);
        while column < columns
            invariant
                row < rows,
                column <= columns,
                rows == w.rows,
                columns == w.columns,
                w.inside(data@.len() as int),
                channel < w.channels,
                row * columns + columns <= u32::MAX,
                sum == before + row_sum(data@, *w, channel as int, row as int, column as nat),
                sum <= (row * columns + column) * 0xffff,
            decreases columns - column,
        {
            let i: usize = w.at(row, column, channel, data.len());
            sum = sum + data[i] as u64;
            column = column + 1;
        }
        row = row + 1;
    }
    sum
}

/// The number of pixels of a window and, per channel, the sum of its samples.
fn sum_area(data: &Vec<u16>, w: &Window, colors: usize, sum: &mut Vec<u64>) -> (pixels: u32)
    requires
        w.inside(data@.len() as int),
        colors <= w.channels,
        pixel_count(*w) <= u32::MAX,
    ensures
        pixels == pixel_count(*w),
        final(sum)@.len() == colors,
        forall|k: int|
            0 <= k < colors ==> #[trigger] final(sum)@[k] == area_sum(data@, *w, k)
                && final(sum)@[k] <= pixels * 0xffff,
{
    *sum = Vec::new();
    let mut color: usize = 0;
    while color < colors
        invariant
            color <= colors,
            colors <= w.channels,
            w.inside(data@.len() as int),
            pixel_count(*w) <= u32::MAX,
            sum@.len() == color,
            forall|k: int|
                0 <= k < color ==> #[trigger] sum@[k] == area_sum(data@, *w, k) && sum@[k]
                    <= pixel_count(*w) * 0xffff,
        decreases colors - color,
    {
        let s: u64 = sum_channel(data, w, color);
        sum.push(s);
        color = color + 1;
    }
    w.rows * w.columns
}

/// What the shields of an image hold.
pub struct DarkStats {
    /// The parts of the image that the upper, lower, left and right shield cover.
    pub areas: [Option<Window>; 4],
    /// The number of pixels under all of them.
    pub pixels: u64,
    /// The sum of their samples per colour.
    pub sums: Vec<u64>,
}

/// The shields in their order.
pub open spec fn shield(i: int) -> Shield {
    if i == 0 {
        Shield::Top
    } else if i == 1 {
        Shield::Bottom
    } else if i == 2 {
        Shield::Left
    } else {
        Shield::Right
    }
}

/// The number of pixels under the first `n` of these areas.
pub open spec fn dark_pixels(areas: Seq<Option<Window>>, n: nat) -> nat
    decreases n,
{
    if n == 0 {
        0
    } else {
        dark_pixels(areas, (n - 1) as nat) + (match areas[n - 1] {
            Some(w) => pixel_count(w),
            None => 0,
        })
    }
}

/// The sum of the samples under the first `n` of these areas in one channel.
pub open spec fn dark_sum(data: Seq<u16>, areas: Seq<Option<Window>>, channel: int, n: nat) -> nat
    decreases n,
{
    if n == 0 {
        0
    } else {
        dark_sum(data, areas, channel, (n - 1) as nat) + (match areas[n - 1] {
            Some(w) => area_sum(data, w, channel),
            None => 0,
        })
    }
}

/// The parts of an image that its shields cover.
pub open spec fn dark_areas(x3f: X3f, image: Window, rescale: bool) -> Seq<Option<Window>> {
    Seq::new(4, |i: int| shielded(x3f, image, rescale, shield(i)))
}

/// The area that a rectangle cuts out has no more pixels than the image.
proof fn lemma_crop_small(w: Window, image: Window)
    requires
        w.rows <= image.rows,
        w.columns <= image.columns,
        pixel_count(image) <= u32::MAX,
    ensures
        pixel_count(w) <= u32::MAX,
{
    assert(w.rows * w.columns <= image.rows * image.columns) by (nonlinear_arith)
        requires
            w.rows <= image.rows,
            w.columns <= image.columns,
    ;
}

/// The parts of an image that its shields cover.
fn get_dark_areas(x3f: &X3f<'_>, image: &Window, len: usize, rescale: bool) -> (r: [Option<
    Window,
>; 4])
    requires
        x3f.inv(),
        image.inside(len as int),
        shields_ok(*x3f, image.columns, image.rows, rescale),
        pixel_count(*image) <= u32::MAX,
    ensures
        r@ == dark_areas(*x3f, *image, rescale),
        forall|i: int|
            0 <= i < 4 && (#[trigger] r@[i]) is Some ==> r@[i]->0.inside(len as int)
                && r@[i]->0.channels == image.channels && pixel_count(r@[i]->0) <= u32::MAX,
{
    let (bottom, right): (bool, bool) = wrong_shields(x3f);
    let a0: Option<Window> = x3f_crop_area_camf(
        x3f,
        "DarkShieldTop".as_bytes(),
        image,
        len,
        rescale,
    );
    let a1: Option<Window> = if bottom {
        None
    } else {
        x3f_crop_area_camf(x3f, "DarkShieldBottom".as_bytes(), image, len, rescale)
    };
    let a2: Option<Window> = x3f_crop_area_column(x3f, ColSide::Left, image, len, rescale);
    let a3: Option<Window> = if right {
        None
    } else {
        x3f_crop_area_column(x3f, ColSide::Right, image, len, rescale)
    };
    let r: [Option<Window>; 4] = [a0, a1, a2, a3];
    proof {
        assert(r@ =~= dark_areas(*x3f, *image, rescale));
        assert forall|i: int| 0 <= i < 4 && (#[trigger] r@[i]) is Some implies pixel_count(
            r@[i]->0,
        ) <= u32::MAX by {
            lemma_crop_small(r@[i]->0, *image);
        }
    }
    r
}

/// Whether an image has pixels under usable shields, in as many colours.
pub open spec fn has_dark_pixels(x3f: X3f, image: Window, rescale: bool, colors: u32) -> bool {
    &&& colors <= image.channels <= i32::MAX
    &&& dark_pixels(dark_areas(x3f, image, rescale), 4) > 0
}

/// What the shields of an image hold, if any of them can be used.
pub fn get_black_level(x3f: &X3f<'_>, image: &Area16, rescale: bool, colors: u32) -> (r: Option<
    DarkStats,
>)
    requires
        x3f.inv(),
        image.inv(),
        pixel_count(image.full()) <= u32::MAX,
        shields_ok(*x3f, image.columns, image.rows, rescale),
    ensures
        match r {
            Some(s) => {
                &&& has_dark_pixels(*x3f, image.full(), rescale, colors)
                &&& s.areas@ == dark_areas(*x3f, image.full(), rescale)
                &&& s.pixels == dark_pixels(s.areas@, 4)
                &&& s.sums@.len() == colors
                &&& forall|k: int|
                    0 <= k < colors ==> #[trigger] s.sums@[k] == dark_sum(
                        image.data@,
                        s.areas@,
                        k,
                        4,
                    )
            },
            None => !has_dark_pixels(*x3f, image.full(), rescale, colors),
        },
{
    if image.channels > i32::MAX as u32 || image.channels < colors {
        return None;
    }
    proof {
        image.full().lemma_fits_inside(image.data@.len() as int);
    }
    let w: Window = image.window();
    let areas: [Option<Window>; 4] = get_dark_areas(x3f, &w, image.data.len(), rescale);
    let n: usize = colors as usize;
    let mut pixels: u64 = 0;
    let mut sums: Vec<u64> = vec![0u64; n];
    let mut i: usize = 0;
    while i < 4
        invariant
            i <= 4,
            n == colors,
            colors <= w.channels,
            w == image.full(),
            pixel_count(w) <= u32::MAX,
            areas@.len() == 4,
            forall|j: int|
                0 <= j < 4 && (#[trigger] areas@[j]) is Some ==> areas@[j]->0.inside(
                    image.data@.len() as int,
                ) && areas@[j]->0.channels == w.channels && pixel_count(areas@[j]->0) <= u32::MAX,
            pixels == dark_pixels(areas@, i as nat),
            pixels <= i * u32::MAX,
            sums@.len() == n,
            forall|k: int|
                0 <= k < n ==> #[trigger] sums@[k] == dark_sum(image.data@, areas@, k, i as nat)
                    && sums@[k] <= i * (u32::MAX * 0xffff),
        decreases 4 - i,
    {
        if let Some(area) = areas[i] {
            let mut sum: Vec<u64> = Vec::new();
            let count: u32 = sum_area(&image.data, &area, n, &mut sum);
            pixels = pixels + count as u64;
            let mut color: usize = 0;
            let ghost before = sums@;
            while color < n
                invariant
                    i < 4,
                    color <= n,
                    n == colors,
                    sum@.len() == n,
                    sums@.len() == n,
                    before.len() == n,
                    count <= u32::MAX,
                    forall|k: int|
                        0 <= k < n ==> #[trigger] sum@[k] == area_sum(image.data@, area, k)
                            && sum@[k] <= count * 0xffff,
                    forall|k: int|
                        0 <= k < n ==> #[trigger] before[k] == dark_sum(
                            image.data@,
                            areas@,
                            k,
                            i as nat,
                        ) && before[k] <= i * (u32::MAX * 0xffff),
                    forall|k: int| color <= k < n ==> #[trigger] sums@[k] == before[k],
                    forall|k: int| 0 <= k < color ==> #[trigger] sums@[k] == before[k] + sum@[k],
                decreases n - color,
            {
                assert(sum@[color as int] <= count * 0xffff);
                assert(before[color as int] <= i * (u32::MAX * 0xffff));
                let s: u64 = sums[color] + sum[color];
                sums.set(color, s);
                color = color + 1;
            }
        }
        i = i + 1;
    }
    if pixels == 0 {
        return None;
    }
    Some(DarkStats { areas, pixels, sums })
}

/// How the sum of a row changes with one sample.
proof fn lemma_row_sum_change(
    data: Seq<u16>,
    other: Seq<u16>,
    w: Window,
    channel: int,
    row: int,
    n: nat,
    r: int,
    c: int,
)
    requires
        w.inside(data.len() as int),
        0 <= channel < w.channels,
        0 <= row < w.rows,
        n <= w.columns,
        other.len() == data.len(),
        0 <= r < w.rows,
        0 <= c < w.columns,
        forall|y: int, x: int|
            0 <= y < w.rows && 0 <= x < w.columns && !(y == r && x == c) ==> #[trigger] other[w.index(
                y,
                x,
                channel,
            )] == data[w.index(y, x, channel)],
    ensures
        row_sum(other, w, channel, row, n) - row_sum(data, w, channel, row, n) == (if row == r && c
            < n {
            other[w.index(r, c, channel)] - data[w.index(r, c, channel)]
        } else {
            0
        }),
    decreases n,
{
    if n > 0 {
        lemma_row_sum_change(data, other, w, channel, row, (n - 1) as nat, r, c);
        let i = w.index(row, n - 1, channel);
        assert(!(row == r && n - 1 == c) ==> other[w.index(row, n - 1, channel)] == data[w.index(
            row,
            n - 1,
            channel,
        )]);
    }
}

proof fn lemma_rows_sum_change(
    data: Seq<u16>,
    other: Seq<u16>,
    w: Window,
    channel: int,
    n: nat,
    r: int,
    c: int,
)
    requires
        w.inside(data.len() as int),
        0 <= channel < w.channels,
        n <= w.rows,
        other.len() == data.len(),
        0 <= r < w.rows,
        0 <= c < w.columns,
        forall|y: int, x: int|
            0 <= y < w.rows && 0 <= x < w.columns && !(y == r && x == c) ==> #[trigger] other[w.index(
                y,
                x,
                channel,
            )] == data[w.index(y, x, channel)],
    ensures
        rows_sum(other, w, channel, n) - rows_sum(data, w, channel, n) == (if r < n {
            other[w.index(r, c, channel)] - data[w.index(r, c, channel)]
        } else {
            0
        }),
    decreases n,
{
    if n > 0 {
        lemma_rows_sum_change(data, other, w, channel, (n - 1) as nat, r, c);
        lemma_row_sum_change(data, other, w, channel, n - 1, w.columns as nat, r, c);
    }
}

/// Every sample of a window counts once in the sum of its channel: if one sample of the
/// channel changes, the sum changes by as much.
pub proof fn law_every_sample_is_summed_once(
    data: Seq<u16>,
    other: Seq<u16>,
    w: Window,
    channel: int,
    row: int,
    column: int,
)
    requires
        w.inside(data.len() as int),
        0 <= channel < w.channels,
        other.len() == data.len(),
        0 <= row < w.rows,
        0 <= column < w.columns,
        forall|y: int, x: int|
            0 <= y < w.rows && 0 <= x < w.columns && !(y == row && x == column)
                ==> #[trigger] other[w.index(y, x, channel)] == data[w.index(y, x, channel)],
    ensures
        ({
            let i = w.offset + row * w.row_stride + column * w.channels + channel;
            area_sum(other, w, channel) - area_sum(data, w, channel) == other[i] - data[i]
        }),
{
    lemma_rows_sum_change(data, other, w, channel, w.rows as nat, row, column);
}

/// The sum of equal samples is as many times the sample as the window has pixels.
pub proof fn law_equal_samples_sum_up(data: Seq<u16>, w: Window, channel: int, v: u16)
    requires
        0 <= channel < w.channels,
        forall|y: int, x: int|
            0 <= y < w.rows && 0 <= x < w.columns ==> #[trigger] data[w.index(y, x, channel)] == v,
    ensures
        area_sum(data, w, channel) == v * (w.rows * w.columns),
        pixel_count(w) == w.rows * w.columns,
{
    lemma_rows_sum_flat(data, w, channel, v, w.rows as nat);
    assert(0 <= w.rows * w.columns) by (nonlinear_arith)
        requires
            0 <= w.rows,
            0 <= w.columns,
    ;
}

proof fn lemma_row_sum_flat(data: Seq<u16>, w: Window, channel: int, v: u16, row: int, n: nat)
    requires
        0 <= row < w.rows,
        n <= w.columns,
        forall|y: int, x: int|
            0 <= y < w.rows && 0 <= x < w.columns ==> #[trigger] data[w.index(y, x, channel)] == v,
    ensures
        row_sum(data, w, channel, row, n) == v * n,
    decreases n,
{
    if n > 0 {
        lemma_row_sum_flat(data, w, channel, v, row, (n - 1) as nat);
        assert(data[w.index(row, n - 1, channel)] == v);
        assert(v * n == v * (n - 1) + v) by (nonlinear_arith);
    } else {
        assert(v * 0 == 0) by (nonlinear_arith);
    }
}

proof fn lemma_rows_sum_flat(data: Seq<u16>, w: Window, channel: int, v: u16, n: nat)
    requires
        n <= w.rows,
        forall|y: int, x: int|
            0 <= y < w.rows && 0 <= x < w.columns ==> #[trigger] data[w.index(y, x, channel)] == v,
    ensures
        rows_sum(data, w, channel, n) == v * (n * w.columns),
    decreases n,
{
    if n > 0 {
        lemma_rows_sum_flat(data, w, channel, v, (n - 1) as nat);
        lemma_row_sum_flat(data, w, channel, v, n - 1, w.columns as nat);
        assert(v * (n * w.columns) == v * ((n - 1) * w.columns) + v * w.columns)
            by (nonlinear_arith);
    } else {
        assert(v * (0 * w.columns) == 0) by (nonlinear_arith);
    }
}

/// The dark samples of a channel are those under the four shields together, and their number
/// is that of the pixels there.
pub proof fn law_all_shields_count(data: Seq<u16>, areas: Seq<Option<Window>>, channel: int)
    requires
        areas.len() == 4,
    ensures
        ({
            let sum = |i: int|
                match areas[i] {
                    Some(w) => area_sum(data, w, channel) as int,
                    None => 0,
                };
            let count = |i: int|
                match areas[i] {
                    Some(w) => w.rows * w.columns,
                    None => 0,
                };
            &&& dark_sum(data, areas, channel, 4) == sum(0) + sum(1) + sum(2) + sum(3)
            &&& dark_pixels(areas, 4) == count(0) + count(1) + count(2) + count(3)
        }),
{
    reveal_with_fuel(dark_sum, 5);
    reveal_with_fuel(dark_pixels, 5);
    assert forall|w: Window| #[trigger] pixel_count(w) == w.rows * w.columns by {
        assert(0 <= w.rows * w.columns) by (nonlinear_arith)
            requires
                0 <= w.rows,
                0 <= w.columns,
        ;
    }
}

} // verus!
