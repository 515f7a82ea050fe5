//! Full-size images from a Quattro sensor, whose lower layers have half the
//! resolution of the top layer.

use crate::area::{lemma_cell, Area16, Window};
use crate::denoise::{
    bmt_to_yuv, converted, pixel_at, saturated, yuv_pixel, yuv_to_bmt, DType,
};
use crate::img3::lemma_packed;
use crate::reflect::{mirrored, reflect_101};
use vstd::prelude::*;

verus! {

/// The weights, in units of 1/256, of the four samples that a sample of the
/// enlarged image is interpolated from. Every other sample lies a quarter of a
/// step after the second of them; the rest lie a quarter of a step before the
/// third.
pub open spec fn tap_weight(x: int, k: int) -> int {
    let i = if x % 2 == 0 {
        3 - k
    } else {
        k
    };
    if i == 0 {
        -27
    } else if i == 1 {
        225
    } else if i == 2 {
        67
    } else {
        -9
    }
}

/// The first of the four samples that a sample of the enlarged image is
/// interpolated from. It may lie outside the image.
pub open spec fn first_tap(x: int) -> int {
    (if x % 2 == 0 {
        x / 2 - 1
    } else {
        x / 2
    }) - 1
}

/// The `k`th sample of a row of `n` that a sample of the enlarged image is
/// interpolated from.
pub open spec fn tap(x: int, k: int, n: int) -> int {
    mirrored(first_tap(x) + k, n)
}

/// A sample of a plane that is enlarged sideways only, in units of 1/256.
pub open spec fn across(src: Seq<u16>, w: int, y: int, x: int) -> int {
    tap_weight(x, 0) * src[y * w + tap(x, 0, w)] + tap_weight(x, 1) * src[y * w + tap(x, 1, w)]
        + tap_weight(x, 2) * src[y * w + tap(x, 2, w)] + tap_weight(x, 3) * src[y * w + tap(
        x,
        3,
        w,
    )]
}

/// A sample of the enlarged plane, in units of 1/65536.
pub open spec fn interpolated(src: Seq<u16>, w: int, h: int, y: int, x: int) -> int {
    tap_weight(y, 0) * across(src, w, tap(y, 0, h), x) + tap_weight(y, 1) * across(
        src,
        w,
        tap(y, 1, h),
        x,
    ) + tap_weight(y, 2) * across(src, w, tap(y, 2, h), x) + tap_weight(y, 3) * across(
        src,
        w,
        tap(y, 3, h),
        x,
    )
}

/// A sample of the enlarged plane: the nearest 16-bit sample.
pub open spec fn enlarged(src: Seq<u16>, w: int, h: int, y: int, x: int) -> u16 {
    saturated((interpolated(src, w, h, y, x) + 0x8000) / 0x1_0000)
}

/// The enlarged plane, packed.
pub open spec fn enlarged_plane(src: Seq<u16>, w: int, h: int) -> Seq<u16> {
    Seq::new(
        (2 * h * (2 * w)) as nat,
        |n: int| enlarged(src, w, h, n / (2 * w), n % (2 * w)),
    )
}

/// The weight of one of the four samples.
fn weight_at(x: usize, k: usize) -> (r: i32)
    requires
        k < 4,
    ensures
        r == tap_weight(x as int, k as int),
        -27 <= r <= 225,
{
    let i: usize = if x % 2 == 0 {
        3 - k
    } else {
        k
    };
    if i == 0 {
        -27
    } else if i == 1 {
        225
    } else if i == 2 {
        67
    } else {
        -9
    }
}

/// One of the four samples of a row of `n`.
fn tap_at(x: usize, k: usize, n: usize) -> (r: usize)
    requires
        k < 4,
        0 < n <= 0x2000_0000,
        x < 2 * n,
    ensures
        r == tap(x as int, k as int, n as int),
        r < n,
{
    let half: i32 = (x / 2) as i32;
    let first: i32 = if x % 2 == 0 {
        half - 2
    } else {
        half - 1
    };
    reflect_101(first + k as i32, n as i32) as usize
}

/// A weight times a sample.
proof fn lemma_product(w: int, v: int)
    requires
        -27 <= w <= 225,
        0 <= v <= 0xffff,
    ensures
        -27 * 0xffff <= w * v <= 225 * 0xffff,
{
    assert(-27 * 0xffff <= w * v <= 225 * 0xffff) by (nonlinear_arith)
        requires
            -27 <= w <= 225,
            0 <= v <= 0xffff,
    ;
}

/// A weight times a sample, for a number of any sign.
proof fn lemma_wide_product(w: int, v: int)
    requires
        -27 <= w <= 225,
        -0x400_0000 <= v <= 0x400_0000,
    ensures
        -225 * 0x400_0000 <= w * v <= 225 * 0x400_0000,
{
    assert(-225 * 0x400_0000 <= w * v <= 225 * 0x400_0000) by (nonlinear_arith)
        requires
            -27 <= w <= 225,
            -0x400_0000 <= v <= 0x400_0000,
    ;
}

/// A sample of a plane that is enlarged sideways only.
fn across_at(src: &Vec<u16>, w: usize, h: usize, y: usize, x: usize) -> (v: i32)
    requires
        src@.len() == h * w,
        0 < w <= 0x2000_0000,
        y < h,
        x < 2 * w,
    ensures
        v == across(src@, w as int, y as int, x as int),
        -0x400_0000 <= v <= 0x400_0000,
{
    let len: usize = src.len();
    let ghost (yy, ww) = (y as int, w as int);
    assert(0 <= yy * ww && yy * ww + ww <= h * ww) by (nonlinear_arith)
        requires
            0 <= yy,
            yy + 1 <= h,
            0 <= ww,
    ;
    let (t0, t1, t2, t3): (usize, usize, usize, usize) = (
        tap_at(x, 0, w),
        tap_at(x, 1, w),
        tap_at(x, 2, w),
        tap_at(x, 3, w),
    );
    let (w0, w1, w2, w3): (i32, i32, i32, i32) = (
        weight_at(x, 0),
        weight_at(x, 1),
        weight_at(x, 2),
        weight_at(x, 3),
    );
    let row: usize = y * w;
    let (s0, s1, s2, s3): (i32, i32, i32, i32) = (
        src[row + t0] as i32,
        src[row + t1] as i32,
        src[row + t2] as i32,
        src[row + t3] as i32,
    );
    proof {
        lemma_product(w0 as int, s0 as int);
        lemma_product(w1 as int, s1 as int);
        lemma_product(w2 as int, s2 as int);
        lemma_product(w3 as int, s3 as int);
    }
    w0 * s0 + w1 * s1 + w2 * s2 + w3 * s3
}

/// Enlarges a plane to twice its size.
pub fn resize_bicubic_2x(src: &Vec<u16>, src_w: u32, src_h: u32, dst: &mut Vec<u16>)
    requires
        src@.len() == src_h * src_w,
        src_w <= 0x2000_0000,
        src_h <= 0x2000_0000,
        old(dst)@.len() == 4 * (src_h * src_w),
    ensures
        final(dst)@ == enlarged_plane(src@, src_w as int, src_h as int),
{
    let (w, h): (usize, usize) = (src_w as usize, src_h as usize);
    let ghost (ww, hh) = (w as int, h as int);
    let n: usize = dst.len();
    assert(2 * hh * (2 * ww) == 4 * (hh * ww)) by (nonlinear_arith);
    if w == 0 || h == 0 {
        assert(hh * ww == 0) by (nonlinear_arith)
            requires
                ww == 0 || hh == 0,
        ;
        assert(dst@ =~= enlarged_plane(src@, ww, hh));
        return;
    }
    let (dw, dh): (usize, usize) = (2 * w, 2 * h);
    // Sideways first.
    let mut tmp: Vec<i32> = Vec::new();
    let mut y: usize = 0;
    assert(hh * (2 * ww) == 2 * (hh * ww)) by (nonlinear_arith);
    while y < h
        invariant
            y <= h,
            0 < w <= 0x2000_0000,
            dw == 2 * w,
            (ww, hh) == (w as int, h as int),
            src@.len() == h * w,
            n == 4 * (hh * ww),
            tmp@.len() == y * dw,
            forall|b: int, a: int|
                0 <= b < y && 0 <= a < dw ==> #[trigger] tmp@[b * dw + a] == across(
                    src@,
                    ww,
                    b,
                    a,
                ),
            forall|i: int| 0 <= i < tmp@.len() ==> -0x400_0000 <= #[trigger] tmp@[i] <= 0x400_0000,
        decreases h - y,
    {
        let mut x: usize = 0;
        while x < dw
            invariant
                y < h,
                x <= dw,
                0 < w <= 0x2000_0000,
                dw == 2 * w,
                (ww, hh) == (w as int, h as int),
                src@.len() == h * w,
                tmp@.len() == y * dw + x,
                forall|b: int, a: int|
                    0 <= b < y && 0 <= a < dw || b == y && 0 <= a < x ==> #[trigger] tmp@[b * dw
                        + a] == across(src@, ww, b, a),
                forall|i: int|
                    0 <= i < tmp@.len() ==> -0x400_0000 <= #[trigger] tmp@[i] <= 0x400_0000,
            decreases dw - x,
        {
            let v: i32 = across_at(src, w, h, y, x);
            let ghost before = tmp@;
            tmp.push(v);
            proof {
                assert forall|b: int, a: int| 0 <= b < y && 0 <= a < dw || b == y && 0 <= a < x
                    + 1 implies #[trigger] tmp@[b * dw + a] == across(src@, ww, b, a) by {
                    if b < y {
                        assert(b * dw + dw <= y * dw) by (nonlinear_arith)
                            requires
                                b + 1 <= y,
                                dw >= 0,
                        ;
                        assert(0 <= b * dw) by (nonlinear_arith)
                            requires
                                0 <= b,
                                0 <= dw,
                        ;
                        assert(before[b * dw + a] == across(src@, ww, b, a));
                    } else if a < x {
                        assert(before[b * dw + a] == across(src@, ww, b, a));
                    }
                }
            }
            x = x + 1;
        }
        assert(y * dw + dw == (y + 1) * dw) by (nonlinear_arith);
        y = y + 1;
    }
    // Then downwards.
    let ghost all = enlarged_plane(src@, ww, hh);
    let mut out: usize = 0;
    let mut row: usize = 0;
    assert(0 * dw == 0);
    while row < dh
        invariant
            row <= dh,
            0 < w <= 0x2000_0000,
            0 < h <= 0x2000_0000,
            dw == 2 * w,
            dh == 2 * h,
            (ww, hh) == (w as int, h as int),
            n == 4 * (hh * ww),
            dst@.len() == n,
            n == dh * dw,
            out == row * dw,
            all == enlarged_plane(src@, ww, hh),
            all.len() == n,
            tmp@.len() == h * dw,
            forall|b: int, a: int|
                0 <= b < h && 0 <= a < dw ==> #[trigger] tmp@[b * dw + a] == across(
                    src@,
                    ww,
                    b,
                    a,
                ),
            forall|i: int| 0 <= i < tmp@.len() ==> -0x400_0000 <= #[trigger] tmp@[i] <= 0x400_0000,
            forall|i: int| 0 <= i < out ==> #[trigger] dst@[i] == all[i],
        decreases dh - row,
    {
        let (t0, t1, t2, t3): (usize, usize, usize, usize) = (
            tap_at(row, 0, h),
            tap_at(row, 1, h),
            tap_at(row, 2, h),
            tap_at(row, 3, h),
        );
        let (w0, w1, w2, w3): (i64, i64, i64, i64) = (
            weight_at(row, 0) as i64,
            weight_at(row, 1) as i64,
            weight_at(row, 2) as i64,
            weight_at(row, 3) as i64,
        );
        let mut x: usize = 0;
        while x < dw
            invariant
                row < dh,
                x <= dw,
                0 < w <= 0x2000_0000,
                0 < h <= 0x2000_0000,
                dw == 2 * w,
                dh == 2 * h,
                (ww, hh) == (w as int, h as int),
                n == 4 * (hh * ww),
                dst@.len() == n,
                n == dh * dw,
                out == row * dw + x,
                all == enlarged_plane(src@, ww, hh),
                all.len() == n,
                t0 == tap(row as int, 0, hh),
                t1 == tap(row as int, 1, hh),
                t2 == tap(row as int, 2, hh),
                t3 == tap(row as int, 3, hh),
                t0 < h,
                t1 < h,
                t2 < h,
                t3 < h,
                w0 == tap_weight(row as int, 0),
                w1 == tap_weight(row as int, 1),
                w2 == tap_weight(row as int, 2),
                w3 == tap_weight(row as int, 3),
                tmp@.len() == h * dw,
                forall|b: int, a: int|
                    0 <= b < h && 0 <= a < dw ==> #[trigger] tmp@[b * dw + a] == across(
                        src@,
                        ww,
                        b,
                        a,
                    ),
                forall|i: int|
                    0 <= i < tmp@.len() ==> -0x400_0000 <= #[trigger] tmp@[i] <= 0x400_0000,
                forall|i: int| 0 <= i < out ==> #[trigger] dst@[i] == all[i],
            decreases dw - x,
        {
            let m: usize = tmp.len();
            proof {
                lemma_cell(t0 as int, x as int, hh, dw as int);
                lemma_cell(t1 as int, x as int, hh, dw as int);
                lemma_cell(t2 as int, x as int, hh, dw as int);
                lemma_cell(t3 as int, x as int, hh, dw as int);
                lemma_cell(row as int, x as int, dh as int, dw as int);
            }
            let (v0, v1, v2, v3): (i64, i64, i64, i64) = (
                tmp[t0 * dw + x] as i64,
                tmp[t1 * dw + x] as i64,
                tmp[t2 * dw + x] as i64,
                tmp[t3 * dw + x] as i64,
            );
            proof {
                lemma_wide_product(w0 as int, v0 as int);
                lemma_wide_product(w1 as int, v1 as int);
                lemma_wide_product(w2 as int, v2 as int);
                lemma_wide_product(w3 as int, v3 as int);
            }
            let v: i64 = w0 * v0 + w1 * v1 + w2 * v2 + w3 * v3;
            assert(v == interpolated(src@, ww, hh, row as int, x as int));
            let rounded: u16 = if v + 0x8000 < 0 {
                0
            } else {
                let q: i64 = (v + 0x8000) / 0x1_0000;
                if q > 0xffff {
                    0xffff
                } else {
                    q as u16
                }
            };
            assert(rounded == enlarged(src@, ww, hh, row as int, x as int));
            dst.set(out, rounded);
            x = x + 1;
            out = out + 1;
        }
        assert(row * dw + dw == (row + 1) * dw) by (nonlinear_arith);
        row = row + 1;
    }
    assert(dst@ =~= all);
}

/// A plane without differences stays one when it is enlarged.
pub proof fn law_flat_planes_stay_flat(src: Seq<u16>, w: int, h: int, v: u16, y: int, x: int)
    requires
        0 < w,
        0 < h,
        src.len() == h * w,
        forall|i: int| 0 <= i < src.len() ==> #[trigger] src[i] == v,
        0 <= y < 2 * h,
        0 <= x < 2 * w,
    ensures
        enlarged(src, w, h, y, x) == v,
{
    assert forall|b: int| 0 <= b < h implies #[trigger] across(src, w, b, x) == 256 * v by {
        assert forall|k: int| 0 <= k < 4 implies src[b * w + #[trigger] tap(x, k, w)] == v by {
            crate::reflect::law_mirror_stays_inside(first_tap(x) + k, w);
            lemma_cell(b, tap(x, k, w), h, w);
        }
        assert(src[b * w + tap(x, 0, w)] == v);
        assert(src[b * w + tap(x, 1, w)] == v);
        assert(src[b * w + tap(x, 2, w)] == v);
        assert(src[b * w + tap(x, 3, w)] == v);
    }
    assert forall|k: int| 0 <= k < 4 implies 0 <= #[trigger] tap(y, k, h) < h by {
        crate::reflect::law_mirror_stays_inside(first_tap(y) + k, h);
    }
    assert(0 <= tap(y, 0, h) < h && 0 <= tap(y, 1, h) < h);
    assert(0 <= tap(y, 2, h) < h && 0 <= tap(y, 3, h) < h);
    assert(interpolated(src, w, h, y, x) == 0x1_0000 * v);
}

/// One channel of a window, packed.
pub open spec fn plane_of(data: Seq<u16>, w: Window, ch: int) -> Seq<u16> {
    Seq::new(
        (w.rows * w.columns) as nat,
        |n: int| data[w.index(n / w.columns as int, n % w.columns as int, ch)],
    )
}

/// Copies one channel of a window.
fn plane(data: &Vec<u16>, w: &Window, ch: usize) -> (r: Vec<u16>)
    requires
        w.inside(data@.len() as int),
        ch < w.channels,
    ensures
        r@ == plane_of(data@, *w, ch as int),
{
    let (rows, cols): (usize, usize) = (w.rows as usize, w.columns as usize);
    let len: usize = data.len();
    let mut out: Vec<u16> = Vec::new();
    let mut row: usize = 0;
    assert(0 * cols == 0);
    while row < rows
        invariant
            row <= rows,
            rows == w.rows,
            cols == w.columns,
            w.inside(len as int),
            ch < w.channels,
            len == data@.len(),
            out@.len() == row * cols,
            forall|n: int|
                0 <= n < out@.len() ==> #[trigger] out@[n] == plane_of(data@, *w, ch as int)[n],
        decreases rows - row,
    {
        let mut col: usize = 0;
        while col < cols
            invariant
                row < rows,
                col <= cols,
                rows == w.rows,
                cols == w.columns,
                w.inside(len as int),
                ch < w.channels,
                len == data@.len(),
                out@.len() == row * cols + col,
                forall|n: int|
                    0 <= n < out@.len() ==> #[trigger] out@[n] == plane_of(
                        data@,
                        *w,
                        ch as int,
                    )[n],
            decreases cols - col,
        {
            proof {
                lemma_cell(row as int, col as int, rows as int, cols as int);
            }
            out.push(data[w.at(row, col, ch, len)]);
            col = col + 1;
        }
        assert(row * cols + cols == (row + 1) * cols) by (nonlinear_arith);
        row = row + 1;
    }
    assert(out@ =~= plane_of(data@, *w, ch as int));
    out
}

/// Whether a top layer has twice the size of an image of three channels.
pub open spec fn is_top_of(t: Window, w: Window) -> bool {
    &&& w.channels == 3
    &&& t.channels == 1
    &&& t.rows == 2 * w.rows
    &&& t.columns == 2 * w.columns
}

/// A full-size image of luma and chroma: the luma from the top layer, the chroma
/// enlarged.
pub open spec fn upsampled(data: Seq<u16>, w: Window, top: Seq<u16>, t: Window) -> Seq<u16> {
    let (cols, rows) = (w.columns as int, w.rows as int);
    Seq::new(
        (t.rows * t.columns * 3) as nat,
        |n: int|
            {
                let (y, x) = ((n / 3) / t.columns as int, (n / 3) % t.columns as int);
                if n % 3 == 0 {
                    saturated(4 * top[t.index(y, x, 0)])
                } else {
                    enlarged(plane_of(data, w, n % 3), cols, rows, y, x)
                }
            },
    )
}

/// Whether a full-size image of three channels can be addressed.
pub open spec fn upsample_fits(t: Window) -> bool {
    &&& t.rows * t.columns * 3 <= usize::MAX
    &&& t.columns * 3 <= u32::MAX
    &&& t.rows <= 0x4000_0000
    &&& t.columns <= 0x4000_0000
}

/// Enlarges one channel of a window.
fn enlarge_channel(data: &Vec<u16>, w: &Window, ch: usize) -> (r: Vec<u16>)
    requires
        w.inside(data@.len() as int),
        ch < w.channels,
        4 * (w.rows * w.columns) <= usize::MAX,
        w.rows <= 0x2000_0000,
        w.columns <= 0x2000_0000,
    ensures
        r@ == enlarged_plane(
            plane_of(data@, *w, ch as int),
            w.columns as int,
            w.rows as int,
        ),
{
    let src: Vec<u16> = plane(data, w, ch);
    let n: usize = src.len();
    assert(0 <= w.rows * w.columns) by (nonlinear_arith);
    let mut dst: Vec<u16> = vec![0u16; 4 * n];
    resize_bicubic_2x(&src, w.columns, w.rows, &mut dst);
    dst
}

/// Makes a full-size image of luma and chroma.
pub fn quattro_upsample(image: &Area16, top: &Vec<u16>, t: &Window) -> (r: Area16)
    requires
        image.inv(),
        t.inside(top@.len() as int),
        is_top_of(*t, image.full()),
        upsample_fits(*t),
    ensures
        r.rows == t.rows,
        r.columns == t.columns,
        r.channels == 3,
        r.row_stride == 3 * t.columns,
        r.inv(),
        r.data@ == upsampled(image.data@, image.full(), top@, *t),
{
    let w: Window = image.window();
    let ghost (wh, ww) = (w.rows as int, w.columns as int);
    let len: usize = top.len();
    let (rows, cols): (usize, usize) = (t.rows as usize, t.columns as usize);
    proof {
        w.lemma_fits_inside(image.data@.len() as int);
        assert(rows * cols == 4 * (wh * ww)) by (nonlinear_arith)
            requires
                rows == 2 * wh,
                cols == 2 * ww,
        ;
        assert(2 * wh * (2 * ww) == rows * cols);
        assert(rows * cols <= rows * cols * 3) by (nonlinear_arith);
    }
    let u: Vec<u16> = enlarge_channel(&image.data, &w, 1);
    let v: Vec<u16> = enlarge_channel(&image.data, &w, 2);
    let mut out: Vec<u16> = Vec::new();
    let ghost all = upsampled(image.data@, w, top@, *t);
    let mut row: usize = 0;
    assert(0 * cols * 3 == 0) by (nonlinear_arith);
    while row < rows
        invariant
            row <= rows,
            rows == t.rows,
            cols == t.columns,
            (wh, ww) == (w.rows as int, w.columns as int),
            rows == 2 * wh,
            cols == 2 * ww,
            t.inside(len as int),
            t.channels == 1,
            len == top@.len(),
            rows * cols * 3 <= usize::MAX,
            2 * wh * (2 * ww) == rows * cols,
            u@ == enlarged_plane(plane_of(image.data@, w, 1), ww, wh),
            v@ == enlarged_plane(plane_of(image.data@, w, 2), ww, wh),
            all == upsampled(image.data@, w, top@, *t),
            out@.len() == row * cols * 3,
            forall|n: int| 0 <= n < out@.len() ==> #[trigger] out@[n] == all[n],
        decreases rows - row,
    {
        let mut col: usize = 0;
        while col < cols
            invariant
                row < rows,
                col <= cols,
                rows == t.rows,
                cols == t.columns,
                (wh, ww) == (w.rows as int, w.columns as int),
                rows == 2 * wh,
                cols == 2 * ww,
                t.inside(len as int),
                t.channels == 1,
                len == top@.len(),
                rows * cols * 3 <= usize::MAX,
                2 * wh * (2 * ww) == rows * cols,
                u@ == enlarged_plane(plane_of(image.data@, w, 1), ww, wh),
                v@ == enlarged_plane(plane_of(image.data@, w, 2), ww, wh),
                all == upsampled(image.data@, w, top@, *t),
                out@.len() == (row * cols + col) * 3,
                forall|n: int| 0 <= n < out@.len() ==> #[trigger] out@[n] == all[n],
            decreases cols - col,
        {
            proof {
                lemma_cell(row as int, col as int, rows as int, cols as int);
                lemma_packed(rows as int, cols as int, row as int, col as int, 0);
                lemma_packed(rows as int, cols as int, row as int, col as int, 1);
                lemma_packed(rows as int, cols as int, row as int, col as int, 2);
            }
            let luma: u32 = top[t.at(row, col, 0, len)] as u32 * 4;
            let y: u16 = if luma > 0xffff {
                0xffff
            } else {
                luma as u16
            };
            let i: usize = row * cols + col;
            out.push(y);
            out.push(u[i]);
            out.push(v[i]);
            col = col + 1;
        }
        assert((row * cols + cols) * 3 == (row + 1) * cols * 3) by (nonlinear_arith);
        row = row + 1;
    }
    assert(out@ =~= all);
    let stride: u32 = 3 * t.columns;
    assert(rows * stride == rows * cols * 3) by (nonlinear_arith)
        requires
            stride == 3 * cols,
    ;
    Area16 { data: out, rows: t.rows, columns: t.columns, channels: 3, row_stride: stride }
}

/// Makes a full-size image of three layers, without noise reduction. The image of
/// half size is left as luma and chroma.
pub fn x3f_expand_quattro(image: &mut Area16, top: &Vec<u16>, t: &Window) -> (r: Area16)
    requires
        old(image).inv(),
        t.inside(top@.len() as int),
        is_top_of(*t, old(image).full()),
        upsample_fits(*t),
    ensures
        final(image).same_shape(*old(image)),
        final(image).data@ == converted(
            old(image).data@,
            old(image).full(),
            DType::Yis4T,
            true,
        ),
        r.rows == t.rows,
        r.columns == t.columns,
        r.channels == 3,
        r.row_stride == 3 * t.columns,
        r.inv(),
        r.data@ == converted(
            upsampled(final(image).data@, old(image).full(), top@, *t),
            r.full(),
            DType::Yis4T,
            false,
        ),
{
    let w: Window = image.window();
    proof {
        w.lemma_fits_inside(image.data@.len() as int);
    }
    bmt_to_yuv(&mut image.data, &w, DType::Yis4T);
    let mut out: Area16 = quattro_upsample(image, top, t);
    let full: Window = out.window();
    proof {
        full.lemma_fits_inside(out.data@.len() as int);
    }
    yuv_to_bmt(&mut out.data, &full, DType::Yis4T);
    out
}

/// The samples that a sample of the enlarged plane is interpolated from lie at most
/// two steps from the one that it is a quarter of.
proof fn lemma_taps_are_near(x: int, k: int, n: int)
    requires
        0 <= x < 2 * n,
        0 <= k < 4,
    ensures
        0 <= tap(x, k, n) < n,
        -2 <= tap(x, k, n) - x / 2 <= 2,
{
    let m = x / 2;
    let i = first_tap(x) + k;
    assert(-2 <= i - m <= 2);
    crate::reflect::law_mirror_stays_inside(i, n);
    if n > 1 {
        let p = 2 * (n - 1);
        if i < 0 {
            crate::reflect::law_mirror_at_the_first_sample(i, n);
            if -i < n {
                crate::reflect::law_mirror_keeps_the_image(-i, n);
            }
        } else if i < n {
            crate::reflect::law_mirror_keeps_the_image(i, n);
        } else {
            crate::reflect::law_mirror_at_the_last_sample(i - (n - 1), n);
            let j = 2 * (n - 1) - i;
            if 0 <= j {
                crate::reflect::law_mirror_keeps_the_image(j, n);
            }
        }
    }
}

/// Planes that are equal within two rows and columns of a sample are enlarged alike
/// there.
proof fn lemma_enlarged_alike(a: Seq<u16>, b: Seq<u16>, w: int, h: int, y: int, x: int)
    requires
        0 <= y < 2 * h,
        0 <= x < 2 * w,
        forall|r: int, c: int|
            0 <= r < h && 0 <= c < w && -2 <= r - y / 2 <= 2 && -2 <= c - x / 2 <= 2
                ==> #[trigger] a[r * w + c] == b[r * w + c],
    ensures
        interpolated(a, w, h, y, x) == interpolated(b, w, h, y, x),
        enlarged(a, w, h, y, x) == enlarged(b, w, h, y, x),
{
    assert forall|r: int| 0 <= r < h && -2 <= r - y / 2 <= 2 implies #[trigger] across(a, w, r, x)
        == across(b, w, r, x) by {
        lemma_taps_are_near(x, 0, w);
        lemma_taps_are_near(x, 1, w);
        lemma_taps_are_near(x, 2, w);
        lemma_taps_are_near(x, 3, w);
        assert(a[r * w + tap(x, 0, w)] == b[r * w + tap(x, 0, w)]);
        assert(a[r * w + tap(x, 1, w)] == b[r * w + tap(x, 1, w)]);
        assert(a[r * w + tap(x, 2, w)] == b[r * w + tap(x, 2, w)]);
        assert(a[r * w + tap(x, 3, w)] == b[r * w + tap(x, 3, w)]);
    }
    lemma_taps_are_near(y, 0, h);
    lemma_taps_are_near(y, 1, h);
    lemma_taps_are_near(y, 2, h);
    lemma_taps_are_near(y, 3, h);
    let taps = (tap(y, 0, h), tap(y, 1, h), tap(y, 2, h), tap(y, 3, h));
    assert(across(a, w, taps.0, x) == across(b, w, taps.0, x));
    assert(across(a, w, taps.1, x) == across(b, w, taps.1, x));
    assert(across(a, w, taps.2, x) == across(b, w, taps.2, x));
    assert(across(a, w, taps.3, x) == across(b, w, taps.3, x));
}

/// A sample of a plane stands where it did in the window.
proof fn lemma_plane_sample(data: Seq<u16>, w: Window, ch: int, row: int, column: int)
    requires
        0 <= row < w.rows,
        0 <= column < w.columns,
    ensures
        0 <= row * w.columns + column < plane_of(data, w, ch).len(),
        plane_of(data, w, ch)[row * w.columns + column] == data[w.index(row, column, ch)],
{
    lemma_cell(row, column, w.rows as int, w.columns as int);
}

/// A sample of the full-size image in its place.
proof fn lemma_upsampled(
    data: Seq<u16>,
    w: Window,
    top: Seq<u16>,
    t: Window,
    y: int,
    x: int,
    ch: int,
)
    requires
        0 <= y < t.rows,
        0 <= x < t.columns,
        0 <= ch < 3,
    ensures
        upsampled(data, w, top, t)[3 * (y * t.columns + x) + ch] == (if ch == 0 {
            saturated(4 * top[t.index(y, x, 0)])
        } else {
            enlarged(plane_of(data, w, ch), w.columns as int, w.rows as int, y, x)
        }),
{
    lemma_packed(t.rows as int, t.columns as int, y, x, ch);
}

/// The luma of the full-size image is the top layer at the same place, four times as
/// bright, and depends on nothing else.
pub proof fn law_luma_is_the_top_layer(
    data: Seq<u16>,
    w: Window,
    top: Seq<u16>,
    t: Window,
    y: int,
    x: int,
)
    requires
        is_top_of(t, w),
        0 <= y < t.rows,
        0 <= x < t.columns,
    ensures
        ({
            let v = 4 * top[t.offset + y * t.row_stride + x];
            upsampled(data, w, top, t)[3 * (y * t.columns + x)] == (if v > 0xffff {
                0xffff
            } else {
                v
            })
        }),
{
    lemma_upsampled(data, w, top, t, y, x, 0);
    assert(x * 1 == x);
}

/// A chroma sample of the full-size image depends on no samples of the half-size
/// image but those of its own channel within two rows and columns of the one that it
/// is a quarter of.
pub proof fn law_chroma_depends_on_what_is_near(
    a: Seq<u16>,
    b: Seq<u16>,
    w: Window,
    top: Seq<u16>,
    other: Seq<u16>,
    t: Window,
    y: int,
    x: int,
    ch: int,
)
    requires
        is_top_of(t, w),
        0 <= y < t.rows,
        0 <= x < t.columns,
        1 <= ch < 3,
        forall|r: int, c: int|
            0 <= r < w.rows && 0 <= c < w.columns && -2 <= r - y / 2 <= 2 && -2 <= c - x / 2 <= 2
                ==> #[trigger] a[w.index(r, c, ch)] == b[w.index(r, c, ch)],
    ensures
        ({
            let i = 3 * (y * t.columns + x) + ch;
            upsampled(a, w, top, t)[i] == upsampled(b, w, other, t)[i]
        }),
{
    lemma_upsampled(a, w, top, t, y, x, ch);
    lemma_upsampled(b, w, other, t, y, x, ch);
    let (cols, rows) = (w.columns as int, w.rows as int);
    let (p, q) = (plane_of(a, w, ch), plane_of(b, w, ch));
    assert forall|r: int, c: int|
        0 <= r < rows && 0 <= c < cols && -2 <= r - y / 2 <= 2 && -2 <= c - x / 2 <= 2 implies
        #[trigger] p[r * cols + c] == q[r * cols + c] by {
        lemma_plane_sample(a, w, ch, r, c);
        lemma_plane_sample(b, w, ch, r, c);
        assert(a[w.index(r, c, ch)] == b[w.index(r, c, ch)]);
    }
    lemma_enlarged_alike(p, q, cols, rows, y, x);
}

/// Where the samples of a chroma channel within two rows and columns of one are all
/// the same, the four samples of the full-size image that it covers are that one.
pub proof fn law_even_chroma_stays(
    data: Seq<u16>,
    w: Window,
    top: Seq<u16>,
    t: Window,
    y: int,
    x: int,
    ch: int,
)
    requires
        is_top_of(t, w),
        0 <= y < t.rows,
        0 <= x < t.columns,
        1 <= ch < 3,
        forall|r: int, c: int|
            0 <= r < w.rows && 0 <= c < w.columns && -2 <= r - y / 2 <= 2 && -2 <= c - x / 2 <= 2
                ==> #[trigger] data[w.index(r, c, ch)] == data[w.index(y / 2, x / 2, ch)],
    ensures
        upsampled(data, w, top, t)[3 * (y * t.columns + x) + ch] == data[w.index(
            y / 2,
            x / 2,
            ch,
        )],
{
    lemma_upsampled(data, w, top, t, y, x, ch);
    let (cols, rows) = (w.columns as int, w.rows as int);
    let v = data[w.index(y / 2, x / 2, ch)];
    let p = plane_of(data, w, ch);
    let q = Seq::new((rows * cols) as nat, |i: int| v);
    assert(0 <= rows * cols) by (nonlinear_arith)
        requires
            0 <= rows,
            0 <= cols,
    ;
    assert forall|r: int, c: int|
        0 <= r < rows && 0 <= c < cols && -2 <= r - y / 2 <= 2 && -2 <= c - x / 2 <= 2 implies
        #[trigger] p[r * cols + c] == q[r * cols + c] by {
        lemma_plane_sample(data, w, ch, r, c);
        assert(data[w.index(r, c, ch)] == v);
    }
    lemma_enlarged_alike(p, q, cols, rows, y, x);
    law_flat_planes_stay_flat(q, cols, rows, v, y, x);
}

/// The cubic kernel at a distance of `n` quarters of a step, in units of 1/256: with
/// `s` for the distance in steps, it is `5/4 s^3 - 9/4 s^2 + 1` up to one step, and
/// `-3/4 s^3 + 15/4 s^2 - 6 s + 3` from there up to two.
pub open spec fn cubic_kernel(n: int) -> int {
    if -4 <= n <= 4 {
        5 * ((if n < 0 { -n } else { n }) * n * n) - 36 * (n * n) + 256
    } else if -8 < n < 8 {
        -3 * ((if n < 0 { -n } else { n }) * n * n) + 60 * (n * n) - 384 * (if n < 0 {
            -n
        } else {
            n
        }) + 768
    } else {
        0
    }
}

/// A sample of the enlarged plane lies a quarter of a step off the middle of a sample
/// of the plane. What it takes of each sample is what the cubic kernel gives for their
/// distance, and nothing of those that are two steps or more away.
pub proof fn law_weights_are_those_of_the_cubic_kernel(x: int, i: int)
    requires
        0 <= x,
    ensures
        cubic_kernel(4 * i - (2 * x - 1)) == (if 0 <= i - first_tap(x) < 4 {
            tap_weight(x, i - first_tap(x))
        } else {
            0
        }),
{
    let k = i - first_tap(x);
    let n = 4 * i - (2 * x - 1);
    assert(cubic_kernel(1) == 225 && cubic_kernel(-1) == 225);
    assert(cubic_kernel(3) == 67 && cubic_kernel(-3) == 67);
    assert(cubic_kernel(5) == -27 && cubic_kernel(-5) == -27);
    assert(cubic_kernel(7) == -9 && cubic_kernel(-7) == -9);
    if x % 2 == 0 {
        assert(n == 4 * k - 7);
    } else {
        assert(n == 4 * k - 5);
    }
}

/// One sample among equal ones spreads by the cubic kernel, downwards and sideways
/// alike: away from the edges, where the samples of a chroma channel within two rows
/// and columns are all `v` but for one of `u`, a sample of the full-size image is off
/// `v` by the difference, times the kernel for the distance in rows and the one in
/// columns, rounded to the nearest 16-bit sample.
pub proof fn law_one_sample_spreads_by_the_cubic_kernel(
    data: Seq<u16>,
    w: Window,
    top: Seq<u16>,
    t: Window,
    y: int,
    x: int,
    ch: int,
    row: int,
    column: int,
    u: u16,
    v: u16,
)
    requires
        is_top_of(t, w),
        2 <= y / 2 < w.rows - 2,
        2 <= x / 2 < w.columns - 2,
        1 <= ch < 3,
        0 <= row < w.rows,
        0 <= column < w.columns,
        forall|r: int, c: int|
            0 <= r < w.rows && 0 <= c < w.columns && -2 <= r - y / 2 <= 2 && -2 <= c - x / 2 <= 2
                ==> #[trigger] data[w.index(r, c, ch)] == (if r == row && c == column {
                u
            } else {
                v
            }),
    ensures
        ({
            let spread = cubic_kernel(4 * row - (2 * y - 1)) * cubic_kernel(
                4 * column - (2 * x - 1),
            );
            let q = (0x1_0000 * v + spread * (u - v) + 0x8000) / 0x1_0000;
            upsampled(data, w, top, t)[3 * (y * t.columns + x) + ch] == (if q < 0 {
                0
            } else if q > 0xffff {
                0xffff
            } else {
                q
            })
        }),
{
    lemma_upsampled(data, w, top, t, y, x, ch);
    let (cols, rows) = (w.columns as int, w.rows as int);
    let p = plane_of(data, w, ch);
    let (ky, kx) = (cubic_kernel(4 * row - (2 * y - 1)), cubic_kernel(4 * column - (2 * x - 1)));
    let d = u - v;
    law_weights_are_those_of_the_cubic_kernel(y, row);
    law_weights_are_those_of_the_cubic_kernel(x, column);
    assert forall|k: int| 0 <= k < 4 implies #[trigger] tap(x, k, cols) == first_tap(x) + k by {
        crate::reflect::law_mirror_keeps_the_image(first_tap(x) + k, cols);
    }
    assert forall|k: int| 0 <= k < 4 implies #[trigger] tap(y, k, rows) == first_tap(y) + k by {
        crate::reflect::law_mirror_keeps_the_image(first_tap(y) + k, rows);
    }
    let (fx, fy) = (first_tap(x), first_tap(y));
    assert forall|r: int| fy <= r < fy + 4 implies #[trigger] across(p, cols, r, x) == 256 * v + (
    if r == row {
        kx * d
    } else {
        0
    }) by {
        assert forall|c: int| fx <= c < fx + 4 implies #[trigger] p[r * cols + c] == (if r == row
            && c == column {
            u
        } else {
            v
        }) by {
            lemma_plane_sample(data, w, ch, r, c);
            assert(data[w.index(r, c, ch)] == (if r == row && c == column {
                u
            } else {
                v
            }));
        }
        assert(tap(x, 0, cols) == fx && tap(x, 1, cols) == fx + 1);
        assert(tap(x, 2, cols) == fx + 2 && tap(x, 3, cols) == fx + 3);
        let (a, b, c, e) = (
            p[r * cols + fx],
            p[r * cols + (fx + 1)],
            p[r * cols + (fx + 2)],
            p[r * cols + (fx + 3)],
        );
        lemma_weighed(
            tap_weight(x, 0),
            tap_weight(x, 1),
            tap_weight(x, 2),
            tap_weight(x, 3),
            v as int,
            a - v,
            b - v,
            c - v,
            e - v,
        );
        let k = column - fx;
        if r == row && 0 <= k < 4 {
            assert(kx == tap_weight(x, k));
        } else {
            assert(r == row ==> kx * d == 0) by (nonlinear_arith)
                requires
                    r == row ==> kx == 0,
            ;
        }
    }
    assert(tap(y, 0, rows) == fy && tap(y, 1, rows) == fy + 1);
    assert(tap(y, 2, rows) == fy + 2 && tap(y, 3, rows) == fy + 3);
    let (a, b, c, e) = (
        across(p, cols, fy, x),
        across(p, cols, fy + 1, x),
        across(p, cols, fy + 2, x),
        across(p, cols, fy + 3, x),
    );
    lemma_weighed(
        tap_weight(y, 0),
        tap_weight(y, 1),
        tap_weight(y, 2),
        tap_weight(y, 3),
        256 * v,
        a - 256 * v,
        b - 256 * v,
        c - 256 * v,
        e - 256 * v,
    );
    let k = row - fy;
    if 0 <= k < 4 {
        assert(ky == tap_weight(y, k));
    }
    assert(ky * (kx * d) == (ky * kx) * d) by (nonlinear_arith);
    assert(ky == 0 ==> ky * (kx * d) == 0) by (nonlinear_arith);
    assert(interpolated(p, cols, rows, y, x) == 0x1_0000 * v + (ky * kx) * d);
}

/// Weights that add up to 256 move their mean by what each sample is off it.
proof fn lemma_weighed(
    a: int,
    b: int,
    c: int,
    d: int,
    v: int,
    p: int,
    q: int,
    r: int,
    s: int,
)
    requires
        a + b + c + d == 256,
    ensures
        a * (v + p) + b * (v + q) + c * (v + r) + d * (v + s) == 256 * v + a * p + b * q + c * r + d
            * s,
{
    assert(a * (v + p) == a * v + a * p) by (nonlinear_arith);
    assert(b * (v + q) == b * v + b * q) by (nonlinear_arith);
    assert(c * (v + r) == c * v + c * r) by (nonlinear_arith);
    assert(d * (v + s) == d * v + d * s) by (nonlinear_arith);
    assert(a * v + b * v + c * v + d * v == (a + b + c + d) * v) by (nonlinear_arith);
}

/// Where the half-size image is even, the full-size one keeps its colour and takes
/// its detail from the top layer: a pixel is that of the half-size image, with every
/// layer moved by as much as the top layer at its place differs from the top layer of
/// the half-size pixel. This is so wherever the luma and the chroma of the pixel can
/// be represented.
pub proof fn law_even_images_take_detail_from_the_top(
    image: Area16,
    top: Seq<u16>,
    t: Window,
    r: Area16,
    y: int,
    x: int,
    pixel: Seq<u16>,
)
    requires
        image.inv(),
        is_top_of(t, image.full()),
        r.rows == t.rows,
        r.columns == t.columns,
        r.channels == 3,
        r.row_stride == 3 * t.columns,
        r.inv(),
        r.data@ == converted(
            upsampled(
                converted(image.data@, image.full(), DType::Yis4T, true),
                image.full(),
                top,
                t,
            ),
            r.full(),
            DType::Yis4T,
            false,
        ),
        0 <= y < t.rows,
        0 <= x < t.columns,
        pixel.len() == 3,
        forall|row: int, column: int, ch: int|
            0 <= row < image.rows && 0 <= column < image.columns && 0 <= ch < 3 && -2 <= row - y / 2
                <= 2 && -2 <= column - x / 2 <= 2 ==> #[trigger] image.data@[image.full().index(
                row,
                column,
                ch,
            )] == pixel[ch],
        4 * top[t.offset + y * t.row_stride + x] <= 0xffff,
        0 <= 2 * pixel[0] - 2 * pixel[2] + 32768 <= 0xffff,
        0 <= pixel[0] - 2 * pixel[1] + pixel[2] + 32768 <= 0xffff,
    ensures
        ({
            let detail = top[t.offset + y * t.row_stride + x] - pixel[2];
            let i = 3 * (y * t.columns + x);
            &&& 0 <= pixel[0] + detail <= 0xffff ==> r.data@[i] == pixel[0] + detail
            &&& 0 <= pixel[1] + detail <= 0xffff ==> r.data@[i + 1] == pixel[1] + detail
            &&& r.data@[i + 2] == pixel[2] + detail
        }),
{
    let w = image.full();
    let half = converted(image.data@, w, DType::Yis4T, true);
    let up = upsampled(half, w, top, t);
    let full = r.full();
    w.lemma_fits_inside(image.data@.len() as int);
    let yuv = yuv_pixel(pixel, DType::Yis4T);
    let (my, mx) = (y / 2, x / 2);
    assert forall|row: int, column: int, ch: int|
        0 <= row < w.rows && 0 <= column < w.columns && 0 <= ch < 3 && -2 <= row - my <= 2 && -2
            <= column - mx <= 2 implies #[trigger] half[w.index(row, column, ch)] == yuv[ch] by {
        w.lemma_index(row, column, ch);
        let p = pixel_at(image.data@, w, row, column);
        assert(image.data@[w.index(row, column, 0)] == pixel[0]);
        assert(image.data@[w.index(row, column, 1)] == pixel[1]);
        assert(image.data@[w.index(row, column, 2)] == pixel[2]);
        assert(p =~= pixel);
    }
    assert forall|ch: int| 1 <= ch < 3 implies up[3 * (y * t.columns + x) + ch] == #[trigger] yuv[ch] by {
        assert(half[w.index(my, mx, ch)] == yuv[ch]);
        assert forall|row: int, column: int|
            0 <= row < w.rows && 0 <= column < w.columns && -2 <= row - my <= 2 && -2 <= column - mx
                <= 2 implies #[trigger] half[w.index(row, column, ch)] == half[w.index(
            my,
            mx,
            ch,
        )] by {}
        law_even_chroma_stays(half, w, top, t, y, x, ch);
    }
    law_luma_is_the_top_layer(half, w, top, t, y, x);
    assert(up[3 * (y * t.columns + x) + 1] == yuv[1]);
    assert(up[3 * (y * t.columns + x) + 2] == yuv[2]);
    let i = 3 * (y * t.columns + x);
    assert forall|ch: int| 0 <= ch < 3 implies full.index(y, x, ch) == i + ch && full.holds(i + ch)
        && full.row_of(i + ch) == y && full.column_of(i + ch) == x && #[trigger] full.channel_of(
        i + ch,
    ) == ch && 0 <= i + ch < up.len() by {
        full.lemma_index(y, x, ch);
        lemma_packed(t.rows as int, t.columns as int, y, x, ch);
        assert(y * (3 * t.columns) == 3 * (y * t.columns)) by (nonlinear_arith);
    }
    assert(full.channel_of(i + 0) == 0 && full.channel_of(i + 1) == 1 && full.channel_of(i + 2)
        == 2);
    let p = pixel_at(up, full, y, x);
    assert(p[0] == up[i] && p[1] == up[i + 1] && p[2] == up[i + 2]);
}

/// Beyond its edges a plane goes on mirrored, so that neither the first nor the last sample
/// is repeated: it is enlarged as the middle of the larger plane that has two more such rows
/// and columns on each side.
pub proof fn law_planes_go_on_mirrored(
    src: Seq<u16>,
    wide: Seq<u16>,
    w: int,
    h: int,
    y: int,
    x: int,
)
    requires
        0 < w,
        0 < h,
        0 <= y < 2 * h,
        0 <= x < 2 * w,
        forall|r: int, c: int|
            -2 <= r < h + 2 && -2 <= c < w + 2 ==> #[trigger] wide[(r + 2) * (w + 4) + c + 2]
                == src[mirrored(r, h) * w + mirrored(c, w)],
    ensures
        enlarged(src, w, h, y, x) == enlarged(wide, w + 4, h + 4, y + 4, x + 4),
{
    let (fx, fy) = (first_tap(x), first_tap(y));
    assert(first_tap(x + 4) == fx + 2 && first_tap(y + 4) == fy + 2);
    assert forall|k: int| 0 <= k < 4 implies #[trigger] tap(x + 4, k, w + 4) == fx + k + 2 by {
        crate::reflect::law_mirror_keeps_the_image(fx + k + 2, w + 4);
    }
    assert forall|k: int| 0 <= k < 4 implies #[trigger] tap(y + 4, k, h + 4) == fy + k + 2 by {
        crate::reflect::law_mirror_keeps_the_image(fy + k + 2, h + 4);
    }
    assert forall|k: int| 0 <= k < 4 implies #[trigger] tap_weight(x + 4, k) == tap_weight(x, k) by {}
    assert forall|r: int| fy <= r < fy + 4 implies #[trigger] across(wide, w + 4, r + 2, x + 4)
        == across(src, w, mirrored(r, h), x) by {
        assert(tap(x + 4, 0, w + 4) == fx + 0 + 2 && tap(x + 4, 1, w + 4) == fx + 1 + 2);
        assert(tap(x + 4, 2, w + 4) == fx + 2 + 2 && tap(x + 4, 3, w + 4) == fx + 3 + 2);
        assert(wide[(r + 2) * (w + 4) + (fx + 0) + 2] == src[mirrored(r, h) * w + mirrored(
            fx + 0,
            w,
        )]);
        assert(wide[(r + 2) * (w + 4) + (fx + 1) + 2] == src[mirrored(r, h) * w + mirrored(
            fx + 1,
            w,
        )]);
        assert(wide[(r + 2) * (w + 4) + (fx + 2) + 2] == src[mirrored(r, h) * w + mirrored(
            fx + 2,
            w,
        )]);
        assert(wide[(r + 2) * (w + 4) + (fx + 3) + 2] == src[mirrored(r, h) * w + mirrored(
            fx + 3,
            w,
        )]);
        assert(tap_weight(x + 4, 0) == tap_weight(x, 0) && tap_weight(x + 4, 1) == tap_weight(x, 1));
        assert(tap_weight(x + 4, 2) == tap_weight(x, 2) && tap_weight(x + 4, 3) == tap_weight(x, 3));
    }
    assert(tap(y + 4, 0, h + 4) == fy + 0 + 2 && tap(y + 4, 1, h + 4) == fy + 1 + 2);
    assert(tap(y + 4, 2, h + 4) == fy + 2 + 2 && tap(y + 4, 3, h + 4) == fy + 3 + 2);
    assert(across(wide, w + 4, fy + 0 + 2, x + 4) == across(src, w, mirrored(fy + 0, h), x));
    assert(across(wide, w + 4, fy + 1 + 2, x + 4) == across(src, w, mirrored(fy + 1, h), x));
    assert(across(wide, w + 4, fy + 2 + 2, x + 4) == across(src, w, mirrored(fy + 2, h), x));
    assert(across(wide, w + 4, fy + 3 + 2, x + 4) == across(src, w, mirrored(fy + 3, h), x));
    assert(tap_weight(y + 4, 0) == tap_weight(y, 0) && tap_weight(y + 4, 1) == tap_weight(y, 1));
    assert(tap_weight(y + 4, 2) == tap_weight(y, 2) && tap_weight(y + 4, 3) == tap_weight(y, 3));
}

/// What a plane is enlarged to is the sum of what its samples are: of two planes that differ
/// in one sample, the enlarged ones differ, before they are rounded, by what the sample
/// differs by, times the kernel for the distance in rows and the one in columns. This is so
/// away from the edges. Rounding is to the nearest sample.
pub proof fn law_samples_add_up_in_the_enlarged_plane(
    a: Seq<u16>,
    b: Seq<u16>,
    w: int,
    h: int,
    y: int,
    x: int,
    row: int,
    column: int,
    v: int,
)
    requires
        2 <= y / 2 < h - 2,
        2 <= x / 2 < w - 2,
        0 <= row < h,
        0 <= column < w,
        forall|r: int, c: int|
            0 <= r < h && 0 <= c < w && !(r == row && c == column) ==> #[trigger] a[r * w + c]
                == b[r * w + c],
    ensures
        interpolated(a, w, h, y, x) - interpolated(b, w, h, y, x) == (cubic_kernel(
            4 * row - (2 * y - 1),
        ) * cubic_kernel(4 * column - (2 * x - 1))) * (a[row * w + column] - b[row * w + column]),
        interpolated(a, w, h, y, x) - 0x8000 < v * 0x1_0000 <= interpolated(a, w, h, y, x) + 0x8000
            && 0 <= v <= 0xffff ==> enlarged(a, w, h, y, x) == v,
{
    let (ky, kx) = (cubic_kernel(4 * row - (2 * y - 1)), cubic_kernel(4 * column - (2 * x - 1)));
    let d = a[row * w + column] - b[row * w + column];
    law_weights_are_those_of_the_cubic_kernel(y, row);
    law_weights_are_those_of_the_cubic_kernel(x, column);
    let (fx, fy) = (first_tap(x), first_tap(y));
    assert forall|k: int| 0 <= k < 4 implies #[trigger] tap(x, k, w) == fx + k by {
        crate::reflect::law_mirror_keeps_the_image(fx + k, w);
    }
    assert forall|k: int| 0 <= k < 4 implies #[trigger] tap(y, k, h) == fy + k by {
        crate::reflect::law_mirror_keeps_the_image(fy + k, h);
    }
    assert forall|r: int| fy <= r < fy + 4 implies #[trigger] across(a, w, r, x) - across(
        b,
        w,
        r,
        x,
    ) == (if r == row {
        kx * d
    } else {
        0
    }) by {
        assert(tap(x, 0, w) == fx + 0 && tap(x, 1, w) == fx + 1);
        assert(tap(x, 2, w) == fx + 2 && tap(x, 3, w) == fx + 3);
        let (a0, a1, a2, a3) = (
            a[r * w + (fx + 0)],
            a[r * w + (fx + 1)],
            a[r * w + (fx + 2)],
            a[r * w + (fx + 3)],
        );
        let k = column - fx;
        if r == row && 0 <= k < 4 {
            assert(kx == tap_weight(x, k));
        } else {
            assert(r == row ==> kx * d == 0) by (nonlinear_arith)
                requires
                    r == row ==> kx == 0,
            ;
        }
        lemma_change(
            tap_weight(x, k),
            a[r * w + column] as int,
            b[r * w + column] as int,
        );
    }
    assert(tap(y, 0, h) == fy + 0 && tap(y, 1, h) == fy + 1);
    assert(tap(y, 2, h) == fy + 2 && tap(y, 3, h) == fy + 3);
    let (b0, b1, b2, b3) = (
        across(b, w, fy + 0, x),
        across(b, w, fy + 1, x),
        across(b, w, fy + 2, x),
        across(b, w, fy + 3, x),
    );
    let k = row - fy;
    if 0 <= k < 4 {
        assert(ky == tap_weight(y, k));
        lemma_change(ky, across(a, w, row, x), across(b, w, row, x));
    }
    assert(ky * (kx * d) == (ky * kx) * d) by (nonlinear_arith);
    assert(ky == 0 ==> ky * (kx * d) == 0) by (nonlinear_arith);
}

proof fn lemma_change(k: int, a: int, b: int)
    ensures
        k * a - k * b == k * (a - b),
{
    assert(k * a - k * b == k * (a - b)) by (nonlinear_arith);
}

/// The enlarged plane has twice the rows and columns, and its samples near their own: where
/// the samples within two rows and columns of one are all the same, the four samples that it
/// covers in the enlarged plane are that one.
pub proof fn law_enlarged_samples_stay_in_place(src: Seq<u16>, w: int, h: int, y: int, x: int)
    requires
        0 < w,
        0 < h,
        src.len() == h * w,
        0 <= y < 2 * h,
        0 <= x < 2 * w,
        forall|r: int, c: int|
            0 <= r < h && 0 <= c < w && -2 <= r - y / 2 <= 2 && -2 <= c - x / 2 <= 2
                ==> #[trigger] src[r * w + c] == src[(y / 2) * w + x / 2],
    ensures
        enlarged_plane(src, w, h).len() == 4 * (h * w),
        enlarged_plane(src, w, h)[y * (2 * w) + x] == src[(y / 2) * w + x / 2],
{
    let v = src[(y / 2) * w + x / 2];
    let flat = Seq::new((h * w) as nat, |i: int| v);
    lemma_cell(y / 2, x / 2, h, w);
    lemma_cell(y, x, 2 * h, 2 * w);
    assert(2 * h * (2 * w) == 4 * (h * w)) by (nonlinear_arith);
    assert forall|r: int, c: int|
        0 <= r < h && 0 <= c < w && -2 <= r - y / 2 <= 2 && -2 <= c - x / 2 <= 2 implies
        #[trigger] src[r * w + c] == flat[r * w + c] by {
        lemma_cell(r, c, h, w);
    }
    lemma_enlarged_alike(src, flat, w, h, y, x);
    law_flat_planes_stay_flat(flat, w, h, v, y, x);
}

} // verus!
