//! The colour space that noise is reduced in.

use crate::area::Window;
use crate::io::X3f;
use crate::meta::{bytes_eq, prop_entry, x3f_get_prop_entry};
use vstd::prelude::*;
use vstd::string::StringSliceAdditionalSpecFns;

verus! {

pub const DENOISE_STD: u32 = 0;

pub const DENOISE_F20: u32 = 1;

pub const DENOISE_F23: u32 = 2;

/// What the luma of a pixel is, by the kind of sensor.
#[derive(Clone, Copy, Debug, PartialEq, Eq, Structural)]
pub enum DType {
    /// The mean of the three layers.
    Std,
    /// The top layer.
    YisT,
    /// Four times the top layer.
    Yis4T,
}

impl DType {
    pub open spec fn spec_from_u32(t: u32) -> DType {
        if t == DENOISE_F20 {
            DType::YisT
        } else if t == DENOISE_F23 {
            DType::Yis4T
        } else {
            DType::Std
        }
    }

    /// The kind of sensor with this number; the standard one for any other.
    pub fn from_u32(t: u32) -> (r: DType)
        ensures
            r == DType::spec_from_u32(t),
    {
        match t {
            1 => DType::YisT,
            2 => DType::Yis4T,
            _ => DType::Std,
        }
    }
}

/// The kind of sensor, by its name in the properties.
pub open spec fn denoise_type(x3f: X3f) -> u32 {
    if prop_entry(x3f, "SENSORID".spec_bytes()) == Some("F20".spec_bytes()) {
        DENOISE_F20
    } else {
        DENOISE_STD
    }
}

/// The kind of sensor, by its name in the properties.
pub fn get_denoise_type(x3f: &X3f<'_>) -> (r: u32)
    ensures
        r == denoise_type(*x3f),
{
    match x3f_get_prop_entry(x3f, "SENSORID".as_bytes()) {
        Some(name) => if bytes_eq(name.as_slice(), "F20".as_bytes()) {
            DENOISE_F20
        } else {
            DENOISE_STD
        },
        None => DENOISE_STD,
    }
}

/// What is added to the chroma samples so that they are not negative.
pub const O_UV: i32 = 32768;

/// The nearest 16-bit sample.
pub open spec fn saturated(v: int) -> u16 {
    if v < 0 {
        0
    } else if v > 0xffff {
        0xffff
    } else {
        v as u16
    }
}

/// The nearest 16-bit sample.
pub fn sat_u16_i32(v: i32) -> (r: u16)
    ensures
        r == saturated(v as int),
{
    if v < 0 {
        0
    } else if v > 0xffff {
        0xffff
    } else {
        v as u16
    }
}

/// A pixel of the bottom, middle and top layer as luma and two chromas.
pub open spec fn yuv_pixel(p: Seq<u16>, dt: DType) -> Seq<u16> {
    let (b, m, t) = (p[0] as int, p[1] as int, p[2] as int);
    let y = match dt {
        DType::Std => (b + m + t) / 3,
        DType::YisT => t,
        DType::Yis4T => 4 * t,
    };
    seq![
        saturated(y),
        saturated(2 * b - 2 * t + O_UV),
        saturated(b - 2 * m + t + O_UV),
    ]
}

/// A pixel of luma and two chromas as bottom, middle and top layer.
pub open spec fn bmt_pixel(p: Seq<u16>, dt: DType) -> Seq<u16> {
    let (y, u, v) = (p[0] as int, p[1] - O_UV, p[2] - O_UV);
    match dt {
        DType::Std => seq![
            saturated((12 * y + 3 * u + 2 * v) / 12),
            saturated((3 * y - v) / 3),
            saturated((12 * y - 3 * u + 2 * v) / 12),
        ],
        DType::YisT => seq![
            saturated((2 * y + u) / 2),
            saturated((4 * y + u - 2 * v) / 4),
            saturated(y),
        ],
        DType::Yis4T => seq![
            saturated((y + 2 * u + 2) / 4),
            saturated((y + u - 2 * v + 2) / 4),
            saturated((y + 2) / 4),
        ],
    }
}

/// Whether luma and chroma of a pixel can be represented.
pub open spec fn representable(p: Seq<u16>, dt: DType) -> bool {
    let (b, m, t) = (p[0] as int, p[1] as int, p[2] as int);
    &&& dt == DType::Yis4T ==> 4 * t <= 0xffff
    &&& 0 <= 2 * b - 2 * t + O_UV <= 0xffff
    &&& 0 <= b - 2 * m + t + O_UV <= 0xffff
}

/// With the top layer for luma, a pixel whose luma and chroma can be represented
/// comes back as it was.
pub proof fn law_colour_space_is_reversible(p: Seq<u16>, dt: DType)
    requires
        p.len() == 3,
        dt != DType::Std,
        representable(p, dt),
    ensures
        bmt_pixel(yuv_pixel(p, dt), dt) == p,
{
    assert(bmt_pixel(yuv_pixel(p, dt), dt) =~= p);
}

/// With the mean of the layers for luma, a pixel comes back as it was if the
/// layers can be divided by three, and one less in every layer if not.
pub proof fn law_mean_luma_loses_one_at_most(p: Seq<u16>)
    requires
        p.len() == 3,
        representable(p, DType::Std),
    ensures
        forall|k: int|
            0 <= k < 3 ==> #[trigger] bmt_pixel(yuv_pixel(p, DType::Std), DType::Std)[k]
                == saturated(
                if (p[0] + p[1] + p[2]) % 3 == 0 {
                    p[k] as int
                } else {
                    p[k] - 1
                },
            ),
{
    let (b, m, t) = (p[0] as int, p[1] as int, p[2] as int);
    let y = (b + m + t) / 3;
    let e = (b + m + t) % 3;
    assert(3 * y == b + m + t - e);
    let q = yuv_pixel(p, DType::Std);
    assert(q[0] == y && q[1] - O_UV == 2 * b - 2 * t && q[2] - O_UV == b - 2 * m + t);
    assert(12 * y + 3 * (2 * b - 2 * t) + 2 * (b - 2 * m + t) == 12 * b - 4 * e);
    assert(3 * y - (b - 2 * m + t) == 3 * m - e);
    assert(12 * y - 3 * (2 * b - 2 * t) + 2 * (b - 2 * m + t) == 12 * t - 4 * e);
}

/// The samples of a pixel of a window.
pub open spec fn pixel_at(data: Seq<u16>, w: Window, row: int, column: int) -> Seq<u16> {
    seq![
        data[w.index(row, column, 0)],
        data[w.index(row, column, 1)],
        data[w.index(row, column, 2)],
    ]
}

/// The samples of a window after every pixel is converted: to luma and chroma, or
/// back to layers.
pub open spec fn converted(data: Seq<u16>, w: Window, dt: DType, to_yuv: bool) -> Seq<u16> {
    Seq::new(
        data.len(),
        |i: int|
            if w.holds(i) {
                let p = pixel_at(data, w, w.row_of(i), w.column_of(i));
                (if to_yuv {
                    yuv_pixel(p, dt)
                } else {
                    bmt_pixel(p, dt)
                })[w.channel_of(i)]
            } else {
                data[i]
            },
    )
}

/// A quotient, or zero where it is negative.
fn quotient(a: i32, b: i32) -> (r: i32)
    requires
        0 < b <= 12,
        -0x4000_0000 <= a <= 0x4000_0000,
    ensures
        saturated(r as int) == saturated(a as int / b as int),
{
    proof {
        let (x, y) = (a as int, b as int);
        if x < 0 {
            assert(x / y < 0) by (nonlinear_arith)
                requires
                    x < 0,
                    0 < y,
            ;
        }
    }
    if a < 0 {
        0
    } else {
        a / b
    }
}

/// Converts a pixel.
fn convert_pixel(p: [u16; 3], dt: DType, to_yuv: bool) -> (r: [u16; 3])
    ensures
        r@ == (if to_yuv {
            yuv_pixel(p@, dt)
        } else {
            bmt_pixel(p@, dt)
        }),
{
    if to_yuv {
        let (b, m, t): (i32, i32, i32) = (p[0] as i32, p[1] as i32, p[2] as i32);
        let y: i32 = match dt {
            DType::Std => (b + m + t) / 3,
            DType::YisT => t,
            DType::Yis4T => 4 * t,
        };
        let r: [u16; 3] = [
            sat_u16_i32(y),
            sat_u16_i32(2 * b - 2 * t + O_UV),
            sat_u16_i32(b - 2 * m + t + O_UV),
        ];
        assert(r@ =~= yuv_pixel(p@, dt));
        r
    } else {
        let (y, u, v): (i32, i32, i32) = (
            p[0] as i32,
            p[1] as i32 - O_UV,
            p[2] as i32 - O_UV,
        );
        let r: [u16; 3] = match dt {
            DType::Std => [
                sat_u16_i32(quotient(12 * y + 3 * u + 2 * v, 12)),
                sat_u16_i32(quotient(3 * y - v, 3)),
                sat_u16_i32(quotient(12 * y - 3 * u + 2 * v, 12)),
            ],
            DType::YisT => [
                sat_u16_i32(quotient(2 * y + u, 2)),
                sat_u16_i32(quotient(4 * y + u - 2 * v, 4)),
                sat_u16_i32(y),
            ],
            DType::Yis4T => [
                sat_u16_i32(quotient(y + 2 * u + 2, 4)),
                sat_u16_i32(quotient(y + u - 2 * v + 2, 4)),
                sat_u16_i32(quotient(y + 2, 4)),
            ],
        };
        assert(r@ =~= bmt_pixel(p@, dt));
        r
    }
}

/// Sets a pixel of a window.
pub fn set_pixel(data: &mut Vec<u16>, w: &Window, row: usize, column: usize, p: [u16; 3])
    requires
        w.inside(old(data)@.len() as int),
        w.channels == 3,
        row < w.rows,
        column < w.columns,
    ensures
        final(data)@.len() == old(data)@.len(),
        forall|i: int|
            0 <= i < old(data)@.len() ==> #[trigger] final(data)@[i] == (if w.holds(i)
                && w.row_of(i) == row && w.column_of(i) == column {
                p@[w.channel_of(i)]
            } else {
                old(data)@[i]
            }),
{
    let n: usize = data.len();
    let ghost (r, c) = (row as int, column as int);
    let (i0, i1, i2): (usize, usize, usize) = (
        w.at(row, column, 0, n),
        w.at(row, column, 1, n),
        w.at(row, column, 2, n),
    );
    data.set(i0, p[0]);
    data.set(i1, p[1]);
    data.set(i2, p[2]);
    proof {
        w.lemma_index(r, c, 0);
        w.lemma_index(r, c, 1);
        w.lemma_index(r, c, 2);
        assert forall|i: int| 0 <= i < n implies #[trigger] data@[i] == (if w.holds(i)
            && w.row_of(i) == row && w.column_of(i) == column {
            p@[w.channel_of(i)]
        } else {
            old(data)@[i]
        }) by {
            if w.holds(i) {
                w.lemma_holds(i);
            }
        }
    }
}

/// Converts every pixel of a window.
fn convert_area(data: &mut Vec<u16>, w: &Window, dt: DType, to_yuv: bool)
    requires
        w.inside(old(data)@.len() as int),
        w.channels == 3,
    ensures
        final(data)@ == converted(old(data)@, *w, dt, to_yuv),
{
    let ghost was = data@;
    let n: usize = data.len();
    let (rows, columns): (usize, usize) = (w.rows as usize, w.columns as usize);
    let mut row: usize = 0;
    while row < rows
        invariant
            row <= rows,
            rows == w.rows,
            columns == w.columns,
            w.inside(n as int),
            w.channels == 3,
            n == was.len(),
            data@.len() == n,
            forall|i: int|
                0 <= i < n ==> #[trigger] data@[i] == (if w.holds(i) && w.row_of(i) < row {
                    converted(was, *w, dt, to_yuv)[i]
                } else {
                    was[i]
                }),
        decreases rows - row,
    {
        let mut column: usize = 0;
        while column < columns
            invariant
                row < rows,
                column <= columns,
                rows == w.rows,
                columns == w.columns,
                w.inside(n as int),
                w.channels == 3,
                n == was.len(),
                data@.len() == n,
                forall|i: int|
                    0 <= i < n ==> #[trigger] data@[i] == (if w.holds(i) && (w.row_of(i) < row
                        || w.row_of(i) == row && w.column_of(i) < column) {
                        converted(was, *w, dt, to_yuv)[i]
                    } else {
                        was[i]
                    }),
            decreases columns - column,
        {
            let ghost (r, c) = (row as int, column as int);
            proof {
                w.lemma_index(r, c, 0);
                w.lemma_index(r, c, 1);
                w.lemma_index(r, c, 2);
            }
            let p: [u16; 3] = [
                data[w.at(row, column, 0, n)],
                data[w.at(row, column, 1, n)],
                data[w.at(row, column, 2, n)],
            ];
            assert(p@ =~= pixel_at(was, *w, r, c));
            let q: [u16; 3] = convert_pixel(p, dt, to_yuv);
            set_pixel(data, w, row, column, q);
            column = column + 1;
        }
        proof {
            assert forall|i: int| 0 <= i < n && w.holds(i) implies w.column_of(i) < columns by {
                w.lemma_holds(i);
            }
        }
        row = row + 1;
    }
    proof {
        assert(data@ =~= converted(was, *w, dt, to_yuv));
    }
}

/// Brings a window from layers to luma and chroma.
pub fn bmt_to_yuv(data: &mut Vec<u16>, w: &Window, dt: DType)
    requires
        w.inside(old(data)@.len() as int),
        w.channels == 3,
    ensures
        final(data)@ == converted(old(data)@, *w, dt, true),
{
    convert_area(data, w, dt, true);
}

/// Brings a window from luma and chroma back to layers.
pub fn yuv_to_bmt(data: &mut Vec<u16>, w: &Window, dt: DType)
    requires
        w.inside(old(data)@.len() as int),
        w.channels == 3,
    ensures
        final(data)@ == converted(old(data)@, *w, dt, false),
{
    convert_area(data, w, dt, false);
}

/// A pixel of three layers becomes luma and chroma in its own place: the luma is the mean
/// of the layers, the top layer or four times it, by the kind of sensor; the first chroma
/// is twice what the bottom layer has more than the top one, and the second what the
/// bottom and the top layer have more than twice the middle one, both with 32768 for
/// none, and each brought into the range of a sample. What lies outside the window stays.
pub proof fn law_luma_and_chroma_of_a_pixel(
    data: Seq<u16>,
    w: Window,
    dt: DType,
    row: int,
    column: int,
    j: int,
)
    requires
        w.inside(data.len() as int),
        w.channels == 3,
        0 <= row < w.rows,
        0 <= column < w.columns,
        0 <= j < data.len(),
        !w.holds(j),
    ensures
        ({
            let i = w.offset + row * w.row_stride + 3 * column;
            let (b, m, t) = (data[i] as int, data[i + 1] as int, data[i + 2] as int);
            let to = converted(data, w, dt, true);
            let y = to[i] as int;
            &&& dt == DType::Std ==> 3 * y <= b + m + t < 3 * y + 3
            &&& dt == DType::YisT ==> y == t
            &&& dt == DType::Yis4T && 4 * t <= 0xffff ==> y == 4 * t
            &&& dt == DType::Yis4T && 4 * t > 0xffff ==> y == 0xffff
            &&& -16384 <= b - t < 16384 ==> to[i + 1] == 32768 + 2 * (b - t)
            &&& b - t < -16384 ==> to[i + 1] == 0
            &&& b - t >= 16384 ==> to[i + 1] == 0xffff
            &&& -32768 <= b + t - 2 * m < 32768 ==> to[i + 2] == 32768 + b + t - 2 * m
            &&& b + t - 2 * m < -32768 ==> to[i + 2] == 0
            &&& b + t - 2 * m >= 32768 ==> to[i + 2] == 0xffff
        }),
        converted(data, w, dt, true)[j] == data[j],
        converted(data, w, dt, false)[j] == data[j],
{
    w.lemma_index(row, column, 0);
    w.lemma_index(row, column, 1);
    w.lemma_index(row, column, 2);
}

/// With the top layer for luma, an image whose luma and chroma can be represented is as it
/// was after it is converted and converted back.
pub proof fn law_images_come_back_from_luma_and_chroma(data: Seq<u16>, w: Window, dt: DType)
    requires
        w.inside(data.len() as int),
        w.channels == 3,
        dt != DType::Std,
        forall|row: int, column: int|
            0 <= row < w.rows && 0 <= column < w.columns ==> representable(
                #[trigger] pixel_at(data, w, row, column),
                dt,
            ),
    ensures
        converted(converted(data, w, dt, true), w, dt, false) == data,
{
    let to = converted(data, w, dt, true);
    let back = converted(to, w, dt, false);
    assert forall|i: int| 0 <= i < data.len() implies back[i] == data[i] by {
        if w.holds(i) {
            w.lemma_holds(i);
            let (row, column) = (w.row_of(i), w.column_of(i));
            w.lemma_index(row, column, 0);
            w.lemma_index(row, column, 1);
            w.lemma_index(row, column, 2);
            let p = pixel_at(data, w, row, column);
            let s = w.row_stride as int;
            assert(row * s <= (w.rows - 1) * s) by (nonlinear_arith)
                requires
                    row <= w.rows - 1,
                    0 <= s,
            ;
            assert(pixel_at(to, w, row, column) =~= yuv_pixel(p, dt));
            law_colour_space_is_reversible(p, dt);
        }
    }
    assert(back =~= data);
}

/// Luma and chroma become layers: without chroma, all three layers are the luma, or a
/// quarter of it, rounded, by the kind of sensor.
pub proof fn law_grey_pixels_have_equal_layers(
    data: Seq<u16>,
    w: Window,
    dt: DType,
    row: int,
    column: int,
)
    requires
        w.inside(data.len() as int),
        w.channels == 3,
        0 <= row < w.rows,
        0 <= column < w.columns,
        data[w.offset + row * w.row_stride + 3 * column + 1] == 32768,
        data[w.offset + row * w.row_stride + 3 * column + 2] == 32768,
    ensures
        ({
            let i = w.offset + row * w.row_stride + 3 * column;
            let y = data[i] as int;
            let g = if dt == DType::Yis4T {
                (y + 2) / 4
            } else {
                y
            };
            let to = converted(data, w, dt, false);
            to[i] == g && to[i + 1] == g && to[i + 2] == g
        }),
{
    w.lemma_index(row, column, 0);
    w.lemma_index(row, column, 1);
    w.lemma_index(row, column, 2);
}

} // verus!
