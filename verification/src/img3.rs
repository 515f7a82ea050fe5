//! Packed images of three channels, and the steps of noise reduction on them.

use crate::area::Window;
use crate::denoise::saturated;
use crate::nlm::{
    bin_size, exponent, gap, law_a_pixel_matches_itself, lemma_exponent, Nlm, NlmCtx, MAX_DIST,
};
use crate::reflect::{law_mirror_keeps_the_image, mirrored, reflect_101};
use vstd::arithmetic::div_mod::{
    lemma_fundamental_div_mod, lemma_fundamental_div_mod_converse, lemma_mod_bound,
};
use vstd::arithmetic::power2::{lemma2_to64, lemma_pow2_pos, pow2};
use vstd::prelude::*;
use vstd::relations::{sorted_by, total_ordering};
use vstd::seq_lib::{group_to_multiset_ensures, lemma_sorted_unique};

verus! {

/// A packed image: rows of pixels of three samples.
#[derive(Debug)]
pub struct Img3 {
    pub rows: usize,
    pub cols: usize,
    pub data: Vec<u16>,
}

/// A packed image of signed samples.
#[derive(Debug)]
pub struct Img3i16 {
    pub rows: usize,
    pub cols: usize,
    pub data: Vec<i16>,
}

/// Where a sample of a packed image stands.
pub open spec fn packed_index(cols: int, row: int, col: int, ch: int) -> int {
    (row * cols + col) * 3 + ch
}

/// The samples of a pixel of a packed image.
pub proof fn lemma_packed(rows: int, cols: int, row: int, col: int, ch: int)
    requires
        0 <= row < rows,
        0 <= col < cols,
        0 <= ch < 3,
    ensures
        0 <= row * cols,
        0 <= packed_index(cols, row, col, ch) < rows * cols * 3,
        (packed_index(cols, row, col, ch) / 3) / cols == row,
        (packed_index(cols, row, col, ch) / 3) % cols == col,
        packed_index(cols, row, col, ch) % 3 == ch,
{
    assert(0 <= row * cols) by (nonlinear_arith)
        requires
            0 <= row,
            0 <= cols,
    ;
    assert(row * cols + cols <= rows * cols) by (nonlinear_arith)
        requires
            row + 1 <= rows,
            0 <= cols,
    ;
    lemma_fundamental_div_mod_converse(row * cols + col, cols, row, col);
}

impl Img3 {
    pub open spec fn inv(self) -> bool {
        self.data@.len() == self.rows * self.cols * 3
    }

    /// A sample.
    pub open spec fn at(self, row: int, col: int, ch: int) -> u16 {
        self.data@[packed_index(self.cols as int, row, col, ch)]
    }

    /// A black image.
    pub fn new(rows: usize, cols: usize) -> (r: Self)
        requires
            rows * cols * 3 <= usize::MAX,
        ensures
            r.rows == rows,
            r.cols == cols,
            r.inv(),
            r.data@ == Seq::new((rows * cols * 3) as nat, |i: int| 0u16),
    {
        assert(rows * cols <= rows * cols * 3) by (nonlinear_arith);
        let r: Img3 = Img3 { rows, cols, data: vec![0u16; rows * cols * 3] };
        assert(r.data@ =~= Seq::new((rows * cols * 3) as nat, |i: int| 0u16));
        r
    }
}

/// The samples of a window, packed.
pub open spec fn packed(data: Seq<u16>, w: Window) -> Seq<u16> {
    Seq::new(
        (w.rows * w.columns * 3) as nat,
        |n: int|
            data[w.index(
                (n / 3) / w.columns as int,
                (n / 3) % w.columns as int,
                n % 3,
            )],
    )
}

/// Copies a window into a packed image.
pub fn area_to_img3(data: &Vec<u16>, w: &Window) -> (r: Img3)
    requires
        w.inside(data@.len() as int),
        w.channels == 3,
    ensures
        r.rows == w.rows,
        r.cols == w.columns,
        r.inv(),
        r.data@ == packed(data@, *w),
{
    let (rows, cols): (usize, usize) = (w.rows as usize, w.columns as usize);
    let len: usize = data.len();
    let mut out: Vec<u16> = Vec::new();
    let mut row: usize = 0;
    assert(0 * cols * 3 == 0) by (nonlinear_arith);
    while row < rows
        invariant
            row <= rows,
            rows == w.rows,
            cols == w.columns,
            w.inside(len as int),
            w.channels == 3,
            len == data@.len(),
            out@.len() == row * cols * 3,
            forall|n: int| 0 <= n < out@.len() ==> #[trigger] out@[n] == packed(data@, *w)[n],
        decreases rows - row,
    {
        let mut col: usize = 0;
        while col < cols
            invariant
                row < rows,
                col <= cols,
                rows == w.rows,
                cols == w.columns,
                w.inside(len as int),
                w.channels == 3,
                len == data@.len(),
                out@.len() == (row * cols + col) * 3,
                forall|n: int| 0 <= n < out@.len() ==> #[trigger] out@[n] == packed(data@, *w)[n],
            decreases cols - col,
        {
            proof {
                lemma_packed(rows as int, cols as int, row as int, col as int, 0);
                lemma_packed(rows as int, cols as int, row as int, col as int, 1);
                lemma_packed(rows as int, cols as int, row as int, col as int, 2);
            }
            out.push(data[w.at(row, col, 0, len)]);
            out.push(data[w.at(row, col, 1, len)]);
            out.push(data[w.at(row, col, 2, len)]);
            col = col + 1;
        }
        assert((row * cols + cols) * 3 == (row + 1) * cols * 3) by (nonlinear_arith);
        row = row + 1;
    }
    assert(out@ =~= packed(data@, *w));
    Img3 { rows, cols, data: out }
}

/// The samples of a raster after a packed image is copied into a window.
pub open spec fn unpacked(data: Seq<u16>, w: Window, image: Seq<u16>) -> Seq<u16> {
    Seq::new(
        data.len(),
        |i: int|
            if w.holds(i) {
                image[packed_index(w.columns as int, w.row_of(i), w.column_of(i), w.channel_of(i))]
            } else {
                data[i]
            },
    )
}

/// Copies a packed image into a window of its size.
pub fn img3_to_area(image: &Img3, data: &mut Vec<u16>, w: &Window)
    requires
        image.inv(),
        w.inside(old(data)@.len() as int),
        w.channels == 3,
        image.rows == w.rows,
        image.cols == w.columns,
    ensures
        final(data)@ == unpacked(old(data)@, *w, image.data@),
{
    let ghost was = data@;
    let n: usize = data.len();
    let len: usize = image.data.len();
    let (rows, cols): (usize, usize) = (image.rows, image.cols);
    let mut row: usize = 0;
    let mut next: usize = 0;
    assert(0 * cols * 3 == 0) by (nonlinear_arith);
    while row < rows
        invariant
            row <= rows,
            rows == w.rows,
            cols == w.columns,
            w.inside(n as int),
            w.channels == 3,
            n == was.len(),
            data@.len() == n,
            image.data@.len() == rows * cols * 3,
            image.data@.len() == len,
            next == row * cols * 3,
            forall|i: int|
                0 <= i < n ==> #[trigger] data@[i] == (if w.holds(i) && w.row_of(i) < row {
                    unpacked(was, *w, image.data@)[i]
                } else {
                    was[i]
                }),
        decreases rows - row,
    {
        let mut col: usize = 0;
        while col < cols
            invariant
                row < rows,
                col <= cols,
                rows == w.rows,
                cols == w.columns,
                w.inside(n as int),
                w.channels == 3,
                n == was.len(),
                data@.len() == n,
                image.data@.len() == rows * cols * 3,
                image.data@.len() == len,
                next == (row * cols + col) * 3,
                forall|i: int|
                    0 <= i < n ==> #[trigger] data@[i] == (if w.holds(i) && (w.row_of(i) < row
                        || w.row_of(i) == row && w.column_of(i) < col) {
                        unpacked(was, *w, image.data@)[i]
                    } else {
                        was[i]
                    }),
            decreases cols - col,
        {
            proof {
                lemma_packed(rows as int, cols as int, row as int, col as int, 2);
            }
            let ghost before = data@;
            let p: [u16; 3] = [image.data[next], image.data[next + 1], image.data[next + 2]];
            crate::denoise::set_pixel(data, w, row, col, p);
            proof {
                assert forall|i: int| 0 <= i < n && w.holds(i) && w.row_of(i) == row
                    && w.column_of(i) == col implies #[trigger] data@[i] == unpacked(
                    was,
                    *w,
                    image.data@,
                )[i] by {
                    w.lemma_holds(i);
                }
            }
            next = next + 3;
            col = col + 1;
        }
        proof {
            assert forall|i: int| 0 <= i < n && w.holds(i) implies w.column_of(i) < cols by {
                w.lemma_holds(i);
            }
        }
        assert((row * cols + cols) * 3 == (row + 1) * cols * 3) by (nonlinear_arith);
        row = row + 1;
    }
    assert(data@ =~= unpacked(was, *w, image.data@));
}

/// An image, mirrored at its edges into a border.
pub open spec fn extended(image: Img3, border: int) -> Seq<u16> {
    let (h, w) = (image.rows + 2 * border, image.cols + 2 * border);
    Seq::new(
        (h * w * 3) as nat,
        |n: int|
            image.at(
                mirrored((n / 3) / w - border, image.rows as int),
                mirrored((n / 3) % w - border, image.cols as int),
                n % 3,
            ),
    )
}

/// Mirrors an image at its edges into a border.
fn extend(image: &Img3, border: usize) -> (r: Vec<u16>)
    requires
        image.inv(),
        0 < image.rows <= 0x4000_0000,
        0 < image.cols <= 0x4000_0000,
        image.rows + 2 * border <= i32::MAX,
        image.cols + 2 * border <= i32::MAX,
        (image.rows + 2 * border) * (image.cols + 2 * border) * 3 <= usize::MAX,
    ensures
        r@ == extended(*image, border as int),
{
    let (h, w): (usize, usize) = (image.rows + 2 * border, image.cols + 2 * border);
    let mut out: Vec<u16> = Vec::new();
    let ghost all = extended(*image, border as int);
    let mut y: usize = 0;
    assert(0 * w * 3 == 0) by (nonlinear_arith);
    while y < h
        invariant
            y <= h,
            h == image.rows + 2 * border,
            w == image.cols + 2 * border,
            image.inv(),
            0 < image.rows <= 0x4000_0000,
            0 < image.cols <= 0x4000_0000,
            h <= i32::MAX,
            w <= i32::MAX,
            all == extended(*image, border as int),
            out@.len() == y * w * 3,
            forall|n: int| 0 <= n < out@.len() ==> #[trigger] out@[n] == all[n],
        decreases h - y,
    {
        let sy: usize = reflect_101(y as i32 - border as i32, image.rows as i32) as usize;
        let mut x: usize = 0;
        while x < w
            invariant
                y < h,
                x <= w,
                h == image.rows + 2 * border,
                w == image.cols + 2 * border,
                image.inv(),
                0 < image.rows <= 0x4000_0000,
                0 < image.cols <= 0x4000_0000,
                h <= i32::MAX,
                w <= i32::MAX,
                sy == mirrored(y - border, image.rows as int),
                sy < image.rows,
                all == extended(*image, border as int),
                out@.len() == (y * w + x) * 3,
                forall|n: int| 0 <= n < out@.len() ==> #[trigger] out@[n] == all[n],
            decreases w - x,
        {
            let sx: usize = reflect_101(x as i32 - border as i32, image.cols as i32) as usize;
            let len: usize = image.data.len();
            proof {
                lemma_packed(image.rows as int, image.cols as int, sy as int, sx as int, 2);
                lemma_packed(h as int, w as int, y as int, x as int, 0);
                lemma_packed(h as int, w as int, y as int, x as int, 1);
                lemma_packed(h as int, w as int, y as int, x as int, 2);
            }
            let i: usize = (sy * image.cols + sx) * 3;
            out.push(image.data[i]);
            out.push(image.data[i + 1]);
            out.push(image.data[i + 2]);
            x = x + 1;
        }
        assert((y * w + w) * 3 == (y + 1) * w * 3) by (nonlinear_arith);
        y = y + 1;
    }
    assert(out@ =~= all);
    out
}

/// How an image is denoised with windows of these sizes: they reach half their
/// size to each side. Differences of neighbourhoods are counted in bins of the
/// smallest power of two that is not below the number of their pixels.
pub open spec fn nlm_of(image: Img3, lut: Seq<[i32; 3]>, template: int, search: int) -> Nlm {
    let (tr, sr) = (template / 2, search / 2);
    let pixels = (2 * tr + 1) * (2 * tr + 1);
    Nlm {
        ext: extended(image, sr + tr),
        ext_cols: image.cols + 2 * (sr + tr),
        rows: image.rows as int,
        cols: image.cols as int,
        tr,
        sr,
        bin: pow2(exponent(pixels)) as int,
        lut,
    }
}

/// Whether the windows and tables for an image are within the limits of the
/// machine's numbers: coordinates and differences of neighbourhoods have 32 bits,
/// sums of weighted samples have 64, and the tables can be indexed.
pub open spec fn nlm_fits(image: Img3, lut: Seq<[i32; 3]>, template: int, search: int) -> bool {
    let (tr, sr) = (template / 2, search / 2);
    let border = tr + sr;
    let (tw, sw) = (2 * tr + 1, 2 * sr + 1);
    &&& 0 <= template
    &&& 0 <= search
    &&& tw * tw * MAX_DIST <= i32::MAX
    &&& image.rows <= 0x4000_0000
    &&& image.cols <= 0x4000_0000
    &&& image.rows + 2 * border <= i32::MAX
    &&& image.cols + 2 * border <= i32::MAX
    &&& (image.rows + 2 * border) * (image.cols + 2 * border) * 3 <= usize::MAX
    &&& image.cols * (sw * sw) <= usize::MAX
    &&& tw * (sw * sw) <= usize::MAX
    &&& 0 < lut.len() <= usize::MAX
    &&& forall|d: int, ch: int|
        0 <= d < lut.len() && 0 <= ch < 3 ==> 0 <= #[trigger] lut[d]@[ch] && lut[d]@[ch] * 0xffff
            * (sw * sw) <= i64::MAX
}

/// The denoised image.
pub open spec fn nlm_image(image: Img3, lut: Seq<[i32; 3]>, template: int, search: int) -> Seq<u16> {
    if image.rows == 0 || image.cols == 0 {
        Seq::empty()
    } else {
        nlm_of(image, lut, template, search).band(0, image.rows as int)
    }
}

/// The extended image that an image is denoised from.
pub struct NlmSource {
    pub ext: Vec<u16>,
    pub rows: usize,
    pub cols: usize,
    pub tr: usize,
    pub sr: usize,
    pub bin: i32,
}

impl NlmSource {
    /// How the image is denoised with these weights.
    pub open spec fn nlm(self, lut: Seq<[i32; 3]>) -> Nlm {
        Nlm {
            ext: self.ext@,
            ext_cols: self.cols + 2 * (self.sr + self.tr),
            rows: self.rows as int,
            cols: self.cols as int,
            tr: self.tr as int,
            sr: self.sr as int,
            bin: self.bin as int,
            lut,
        }
    }

    /// Extends an image by the reach of the windows.
    pub fn new(image: &Img3, lut: &Vec<[i32; 3]>, template: usize, search: usize) -> (r: Self)
        requires
            image.inv(),
            0 < image.rows,
            0 < image.cols,
            nlm_fits(*image, lut@, template as int, search as int),
        ensures
            r.nlm(lut@) == nlm_of(*image, lut@, template as int, search as int),
            r.nlm(lut@).inv(),
    {
        let (tr, sr): (usize, usize) = (template / 2, search / 2);
        let ext: Vec<u16> = extend(image, sr + tr);
        let ghost t = 2 * tr + 1;
        assert(tr <= 51) by (nonlinear_arith)
            requires
                t == 2 * tr + 1,
                t * t * 196605 <= 0x7fff_ffff,
        ;
        assert(t * t <= 10609) by (nonlinear_arith)
            requires
                0 <= t <= 103,
        ;
        let bin: i32 = bin_size((2 * tr as i32 + 1) * (2 * tr as i32 + 1));
        let r: NlmSource = NlmSource { ext, rows: image.rows, cols: image.cols, tr, sr, bin };
        r
    }

    /// The rows from `from` to `to` of the denoised image.
    pub fn process_rows(&self, lut: &Vec<[i32; 3]>, from: usize, to: usize) -> (out: Vec<u16>)
        requires
            self.nlm(lut@).inv(),
            from <= to <= self.rows,
        ensures
            out@ == self.nlm(lut@).band(from as int, to as int),
    {
        proof {
            self.nlm(lut@).lemma_small();
        }
        let ctx: NlmCtx<'_> = NlmCtx {
            ext: &self.ext,
            ext_cols: self.cols + 2 * (self.sr + self.tr),
            rows: self.rows,
            cols: self.cols,
            tr: self.tr,
            sr: self.sr,
            bin: self.bin,
            lut,
        };
        assert(ctx@ == self.nlm(lut@));
        ctx.process_rows(from, to)
    }
}

/// Denoises an image with windows of these sizes, by weights per channel.
pub fn fast_nlm_denoise(image: &Img3, lut: &Vec<[i32; 3]>, template: usize, search: usize) -> (r:
    Img3)
    requires
        image.inv(),
        nlm_fits(*image, lut@, template as int, search as int),
    ensures
        r.rows == image.rows,
        r.cols == image.cols,
        r.inv(),
        r.data@ == nlm_image(*image, lut@, template as int, search as int),
{
    let (rows, cols): (usize, usize) = (image.rows, image.cols);
    if rows == 0 || cols == 0 {
        assert(rows * cols * 3 == 0) by (nonlinear_arith)
            requires
                rows == 0 || cols == 0,
        ;
        return Img3 { rows, cols, data: Vec::new() };
    }
    let source: NlmSource = NlmSource::new(image, lut, template, search);
    let data: Vec<u16> = source.process_rows(lut, 0, rows);
    assert((rows - 0) * cols * 3 == rows * cols * 3) by (nonlinear_arith);
    Img3 { rows, cols, data }
}

/// The order of samples.
pub open spec fn sample_order() -> spec_fn(u16, u16) -> bool {
    |a: u16, b: u16| a <= b
}

/// The median of an odd number of samples: the middle one in order.
pub open spec fn median(samples: Seq<u16>) -> u16 {
    samples.sort_by(sample_order())[(samples.len() / 2) as int]
}

/// Puts a sample into a list in order.
fn insert_in_order(list: &mut Vec<u16>, x: u16)
    requires
        sorted_by(old(list)@, sample_order()),
        old(list)@.len() < 9,
    ensures
        sorted_by(final(list)@, sample_order()),
        final(list)@.to_multiset() == old(list)@.to_multiset().insert(x),
        final(list)@.len() == old(list)@.len() + 1,
{
    let ghost leq = sample_order();
    let ghost was = list@;
    let mut p: usize = 0;
    let n: usize = list.len();
    let mut looking: bool = p < n && list[p] <= x;
    while looking
        invariant
            p <= n,
            n == list@.len(),
            list@ == was,
            looking == (p < n && list@[p as int] <= x),
            forall|i: int| 0 <= i < p ==> #[trigger] list@[i] <= x,
        decreases n - p + (if looking {
            1int
        } else {
            0
        }),
    {
        p = p + 1;
        looking = p < n && list[p] <= x;
    }
    list.insert(p, x);
    proof {
        broadcast use group_to_multiset_ensures;

        assert(list@ == was.insert(p as int, x));
        assert forall|i: int, j: int| 0 <= i < j < list@.len() implies #[trigger] leq(
            list@[i],
            list@[j],
        ) by {
            if p < n {
                assert(x < was[p as int]);
            }
            let (a, b) = (
                if i < p {
                    i
                } else {
                    i - 1
                },
                if j < p {
                    j
                } else {
                    j - 1
                },
            );
            if i != p && j != p {
                assert(leq(was[a], was[b]));
            } else if i == p {
                if b > p {
                    assert(leq(was[p as int], was[b]));
                }
            }
        }
    }
}

/// The median of nine samples.
fn median_of_nine(samples: &[u16; 9]) -> (m: u16)
    ensures
        m == median(samples@),
{
    let ghost leq = sample_order();
    let mut list: Vec<u16> = Vec::new();
    let mut i: usize = 0;
    proof {
        broadcast use group_to_multiset_ensures;

        assert(samples@.take(0) =~= list@);
    }
    while i < 9
        invariant
            i <= 9,
            list@.len() == i,
            sorted_by(list@, sample_order()),
            list@.to_multiset() == samples@.take(i as int).to_multiset(),
        decreases 9 - i,
    {
        insert_in_order(&mut list, samples[i]);
        proof {
            broadcast use group_to_multiset_ensures;

            assert(samples@.take(i + 1) =~= samples@.take(i as int).push(samples@[i as int]));
        }
        i = i + 1;
    }
    proof {
        assert(samples@.take(9) =~= samples@);
        assert(total_ordering(leq)) by {
            assert(vstd::relations::reflexive(leq));
            assert(vstd::relations::antisymmetric(leq));
            assert(vstd::relations::transitive(leq));
            assert(vstd::relations::strongly_connected(leq));
        }
        samples@.lemma_sort_by_ensures(leq);
        lemma_sorted_unique(list@, samples@.sort_by(leq), leq);
    }
    list[4]
}

/// A coordinate, brought into `0..n`.
pub open spec fn clamped(i: int, n: int) -> int {
    if i < 0 {
        0
    } else if i >= n {
        n - 1
    } else {
        i
    }
}

/// The nine samples around a pixel in one channel; beyond the edges of the image
/// they are those at the edge.
pub open spec fn around(image: Img3, row: int, col: int, ch: int) -> Seq<u16> {
    let (h, w) = (image.rows as int, image.cols as int);
    Seq::new(
        9,
        |k: int| image.at(clamped(row + k / 3 - 1, h), clamped(col + k % 3 - 1, w), ch),
    )
}

/// The samples of an image after a median filter on one channel.
pub open spec fn median_filtered(image: Img3, ch: int) -> Seq<u16> {
    let w = image.cols as int;
    Seq::new(
        image.data@.len(),
        |n: int|
            if n % 3 == ch {
                median(around(image, (n / 3) / w, (n / 3) % w, ch))
            } else {
                image.data@[n]
            },
    )
}

/// One of the nine samples around a pixel.
fn sample_around(image: &Img3, row: usize, col: usize, ch: usize, k: usize) -> (v: u16)
    requires
        image.inv(),
        row < image.rows,
        col < image.cols,
        ch < 3,
        k < 9,
    ensures
        v == around(*image, row as int, col as int, ch as int)[k as int],
{
    let y: usize = if k / 3 == 0 && row > 0 {
        row - 1
    } else if k / 3 == 2 && row < image.rows - 1 {
        row + 1
    } else {
        row
    };
    let x: usize = if k % 3 == 0 && col > 0 {
        col - 1
    } else if k % 3 == 2 && col < image.cols - 1 {
        col + 1
    } else {
        col
    };
    let len: usize = image.data.len();
    proof {
        lemma_packed(image.rows as int, image.cols as int, y as int, x as int, ch as int);
    }
    image.data[(y * image.cols + x) * 3 + ch]
}

/// Replaces every sample of one channel by the median of the nine around it.
pub fn median_blur_channel_3x3(image: &mut Img3, ch: usize)
    requires
        old(image).inv(),
        ch < 3,
    ensures
        final(image).rows == old(image).rows,
        final(image).cols == old(image).cols,
        final(image).data@ == median_filtered(*old(image), ch as int),
{
    let (rows, cols): (usize, usize) = (image.rows, image.cols);
    let n: usize = image.data.len();
    let mut out: Vec<u16> = Vec::new();
    let ghost all = median_filtered(*image, ch as int);
    let mut row: usize = 0;
    assert(0 * cols * 3 == 0) by (nonlinear_arith);
    while row < rows
        invariant
            row <= rows,
            image.inv(),
            image.rows == rows,
            image.cols == cols,
            n == image.data@.len(),
            ch < 3,
            all == median_filtered(*image, ch as int),
            out@.len() == row * cols * 3,
            forall|i: int| 0 <= i < out@.len() ==> #[trigger] out@[i] == all[i],
            *image == *old(image),
        decreases rows - row,
    {
        let mut col: usize = 0;
        while col < cols
            invariant
                row < rows,
                col <= cols,
                image.inv(),
                image.rows == rows,
                image.cols == cols,
                n == image.data@.len(),
                ch < 3,
                all == median_filtered(*image, ch as int),
                out@.len() == (row * cols + col) * 3,
                forall|i: int| 0 <= i < out@.len() ==> #[trigger] out@[i] == all[i],
                *image == *old(image),
            decreases cols - col,
        {
            let nine: [u16; 9] = [
                sample_around(image, row, col, ch, 0),
                sample_around(image, row, col, ch, 1),
                sample_around(image, row, col, ch, 2),
                sample_around(image, row, col, ch, 3),
                sample_around(image, row, col, ch, 4),
                sample_around(image, row, col, ch, 5),
                sample_around(image, row, col, ch, 6),
                sample_around(image, row, col, ch, 7),
                sample_around(image, row, col, ch, 8),
            ];
            assert(nine@ =~= around(*image, row as int, col as int, ch as int));
            let m: u16 = median_of_nine(&nine);
            proof {
                lemma_packed(rows as int, cols as int, row as int, col as int, 0);
                lemma_packed(rows as int, cols as int, row as int, col as int, 1);
                lemma_packed(rows as int, cols as int, row as int, col as int, 2);
            }
            let i: usize = (row * cols + col) * 3;
            out.push(if ch == 0 { m } else { image.data[i] });
            out.push(if ch == 1 { m } else { image.data[i + 1] });
            out.push(if ch == 2 { m } else { image.data[i + 2] });
            col = col + 1;
        }
        assert((row * cols + cols) * 3 == (row + 1) * cols * 3) by (nonlinear_arith);
        row = row + 1;
    }
    image.data = out;
    assert(image.data@ =~= all);
}

/// The nearest signed 16-bit sample.
pub open spec fn saturated_i16(v: int) -> i16 {
    if v < -0x8000 {
        -0x8000i16
    } else if v > 0x7fff {
        0x7fff
    } else {
        v as i16
    }
}

/// The difference of two images.
pub fn subtract_to_i16(a: &Img3, b: &Img3) -> (r: Img3i16)
    requires
        a.data@.len() == b.data@.len(),
    ensures
        r.rows == a.rows,
        r.cols == a.cols,
        r.data@ == Seq::new(a.data@.len(), |i: int| saturated_i16(a.data@[i] - b.data@[i])),
{
    let n: usize = a.data.len();
    let mut out: Vec<i16> = Vec::new();
    let mut i: usize = 0;
    while i < n
        invariant
            i <= n,
            n == a.data@.len(),
            n == b.data@.len(),
            out@.len() == i,
            forall|k: int|
                0 <= k < i ==> #[trigger] out@[k] == saturated_i16(a.data@[k] - b.data@[k]),
        decreases n - i,
    {
        let d: i32 = a.data[i] as i32 - b.data[i] as i32;
        out.push(
            if d < -0x8000 {
                -0x8000i16
            } else if d > 0x7fff {
                0x7fff
            } else {
                d as i16
            },
        );
        i = i + 1;
    }
    assert(out@ =~= Seq::new(a.data@.len(), |i: int| saturated_i16(a.data@[i] - b.data@[i])));
    Img3i16 { rows: a.rows, cols: a.cols, data: out }
}

/// Takes a signed image away from an image.
pub fn subtract_u16_inplace(out: &mut Img3, res: &Img3i16)
    requires
        old(out).data@.len() == res.data@.len(),
    ensures
        final(out).rows == old(out).rows,
        final(out).cols == old(out).cols,
        final(out).data@ == Seq::new(
            old(out).data@.len(),
            |i: int| saturated(old(out).data@[i] - res.data@[i]),
        ),
{
    let n: usize = out.data.len();
    let mut i: usize = 0;
    while i < n
        invariant
            i <= n,
            n == out.data@.len(),
            n == res.data@.len(),
            n == old(out).data@.len(),
            out.rows == old(out).rows,
            out.cols == old(out).cols,
            forall|k: int|
                0 <= k < i ==> #[trigger] out.data@[k] == saturated(
                    old(out).data@[k] - res.data@[k],
                ),
            forall|k: int| i <= k < n ==> #[trigger] out.data@[k] == old(out).data@[k],
        decreases n - i,
    {
        let v: i32 = out.data[i] as i32 - res.data[i] as i32;
        out.data.set(i, crate::denoise::sat_u16_i32(v));
        i = i + 1;
    }
    assert(out.data@ =~= Seq::new(
        old(out).data@.len(),
        |i: int| saturated(old(out).data@[i] - res.data@[i]),
    ));
}

/// The same samples in another order have the same median.
proof fn lemma_median_of(samples: Seq<u16>, sorted: Seq<u16>)
    requires
        sorted_by(sorted, sample_order()),
        sorted.to_multiset() == samples.to_multiset(),
        sorted.len() == samples.len(),
    ensures
        median(samples) == sorted[(samples.len() / 2) as int],
{
    let leq = sample_order();
    assert(total_ordering(leq)) by {
        assert(vstd::relations::reflexive(leq));
        assert(vstd::relations::antisymmetric(leq));
        assert(vstd::relations::transitive(leq));
        assert(vstd::relations::strongly_connected(leq));
    }
    samples.lemma_sort_by_ensures(leq);
    lemma_sorted_unique(sorted, samples.sort_by(leq), leq);
}

/// A sample that differs from all others around it does not survive the median
/// filter, and samples without differences stay.
pub proof fn law_outliers_vanish(samples: Seq<u16>, v: u16, at: int)
    requires
        samples.len() == 9,
        0 <= at < 9,
        forall|k: int| 0 <= k < 9 && k != at ==> #[trigger] samples[k] == v,
    ensures
        median(samples) == v,
{
    broadcast use vstd::seq_lib::group_to_multiset_ensures;

    let x = samples[at];
    let rest = Seq::new(8, |k: int| v);
    assert(samples.remove(at) =~= rest);
    assert(samples.to_multiset() =~= rest.to_multiset().insert(x)) by {
        assert(samples.remove(at).to_multiset() =~= samples.to_multiset().remove(x));
        assert(samples.to_multiset().count(x) > 0) by {
            assert(samples.contains(x));
        }
    }
    let sorted = if x <= v {
        rest.insert(0, x)
    } else {
        rest.push(x)
    };
    assert(sorted.to_multiset() =~= rest.to_multiset().insert(x));
    lemma_median_of(samples, sorted);
}

impl Img3 {
    /// A sample of the image as it goes on, mirrored, beyond its edges.
    pub open spec fn beyond(self, row: int, col: int, ch: int) -> int {
        self.at(mirrored(row, self.rows as int), mirrored(col, self.cols as int), ch) as int
    }
}

/// The extended image of a denoised one is the image as it goes on.
proof fn lemma_extended(
    image: Img3,
    lut: Seq<[i32; 3]>,
    template: int,
    search: int,
    y: int,
    x: int,
    ch: int,
)
    requires
        0 <= template,
        0 <= search,
        ({
            let border = template / 2 + search / 2;
            0 <= y < image.rows + 2 * border && 0 <= x < image.cols + 2 * border
        }),
        0 <= ch < 3,
    ensures
        ({
            let border = template / 2 + search / 2;
            nlm_of(image, lut, template, search).sample(y, x, ch) == image.beyond(
                y - border,
                x - border,
                ch,
            )
        }),
{
    let border = search / 2 + template / 2;
    lemma_packed(image.rows + 2 * border, image.cols + 2 * border, y, x, ch);
}

/// What an image is denoised by is within its limits.
proof fn lemma_nlm_inv(image: Img3, lut: Seq<[i32; 3]>, template: int, search: int)
    requires
        image.inv(),
        0 < image.rows,
        0 < image.cols,
        nlm_fits(image, lut, template, search),
    ensures
        nlm_of(image, lut, template, search).inv(),
{
    let tr = template / 2;
    let t = 2 * tr + 1;
    assert(tr <= 51) by (nonlinear_arith)
        requires
            0 <= tr,
            t == 2 * tr + 1,
            t * t * 196605 <= 0x7fff_ffff,
    ;
    lemma_pow2_pos(exponent(t * t));
}

/// A sample of the denoised image in its place.
proof fn lemma_denoised(
    image: Img3,
    lut: Seq<[i32; 3]>,
    template: int,
    search: int,
    i: int,
    j: int,
    ch: int,
)
    requires
        0 <= i < image.rows,
        0 <= j < image.cols,
        0 <= ch < 3,
    ensures
        nlm_image(image, lut, template, search)[(i * image.cols + j) * 3 + ch] == nlm_of(
            image,
            lut,
            template,
            search,
        ).denoised(i, j, ch),
{
    lemma_packed(image.rows as int, image.cols as int, i, j, ch);
    assert((image.rows - 0) * image.cols * 3 == image.rows * image.cols * 3);
}

/// Noise reduction leaves a sample as it is where only pixels of its own value are
/// alike. With weights of zero from the first bin on, that is where each pixel of
/// the window that is searched either has the same sample or lies in a
/// neighbourhood of which some sample, in whichever channel, differs by a bin or
/// more from its counterpart. A bin is the smallest power of two that is not below
/// the number of pixels of a neighbourhood.
pub proof fn law_samples_stay_where_nothing_else_is_alike(
    image: Img3,
    lut: Seq<[i32; 3]>,
    template: int,
    search: int,
    e: nat,
    i: int,
    j: int,
    ch: int,
)
    requires
        image.inv(),
        nlm_fits(image, lut, template, search),
        0 <= i < image.rows,
        0 <= j < image.cols,
        0 <= ch < 3,
        lut.len() >= 2,
        lut[0]@[ch] > 0,
        forall|d: int| 1 <= d < lut.len() ==> #[trigger] lut[d]@[ch] == 0,
        ({
            let (tr, sr) = (template / 2, search / 2);
            let pixels = (2 * tr + 1) * (2 * tr + 1);
            &&& pixels <= pow2(e) < 2 * pixels
            &&& forall|dy: int, dx: int|
                -sr <= dy <= sr && -sr <= dx <= sr ==> (#[trigger] image.beyond(i + dy, j + dx, ch)
                    == image.at(i, j, ch) || exists|a: int, b: int, c: int|
                    -tr <= a <= tr && -tr <= b <= tr && 0 <= c < 3 && gap(
                        #[trigger] image.beyond(i + a, j + b, c),
                        image.beyond(i + a + dy, j + b + dx, c),
                    ) >= pow2(e))
        }),
    ensures
        nlm_image(image, lut, template, search)[(i * image.cols + j) * 3 + ch] == image.at(
            i,
            j,
            ch,
        ),
{
    let nlm = nlm_of(image, lut, template, search);
    let (tr, sr) = (template / 2, search / 2);
    let sw = 2 * sr + 1;
    let v = image.at(i, j, ch) as int;
    let pixels = (2 * tr + 1) * (2 * tr + 1);
    lemma_nlm_inv(image, lut, template, search);
    if e > 0 {
        vstd::arithmetic::power2::lemma_pow2_unfold(e);
    }
    lemma_exponent(e, pixels);
    assert(nlm.bin == pow2(e));
    assert forall|k: int| 0 <= k < nlm.places() implies #[trigger] nlm.place_sample(i, j, k, ch)
        == v || nlm.weight(i, j, k, ch) == 0 by {
        nlm.lemma_place(k);
        let (dy, dx) = (k / sw - sr, k % sw - sr);
        lemma_extended(image, lut, template, search, tr + i + k / sw, tr + j + k % sw, ch);
        assert(tr + i + k / sw - (tr + sr) == i + dy);
        assert(tr + j + k % sw - (tr + sr) == j + dx);
        assert(nlm.place_sample(i, j, k, ch) == image.beyond(i + dy, j + dx, ch));
        if image.beyond(i + dy, j + dx, ch) != v {
            let (a, b, c) = choose|a: int, b: int, c: int|
                -tr <= a <= tr && -tr <= b <= tr && 0 <= c < 3 && gap(
                    #[trigger] image.beyond(i + a, j + b, c),
                    image.beyond(i + a + dy, j + b + dx, c),
                ) >= pow2(e);
            let (p, q) = (i + tr + a, j + tr + b);
            lemma_extended(image, lut, template, search, sr + p, sr + q, c);
            lemma_extended(image, lut, template, search, p + k / sw, q + k % sw, c);
            assert(sr + p - (tr + sr) == i + a);
            assert(sr + q - (tr + sr) == j + b);
            assert(p + k / sw - (tr + sr) == i + a + dy);
            assert(q + k % sw - (tr + sr) == j + b + dx);
            nlm.lemma_samples_count(i, j, k, p, q, c);
            let dist = nlm.patch_dist(i, j, k);
            let bin = nlm.bin;
            assert(dist / bin >= 1) by (nonlinear_arith)
                requires
                    dist >= bin,
                    bin > 0,
            ;
            assert(nlm.weight(i, j, k, ch) == 0);
        }
    }
    let n = nlm.places() as nat;
    nlm.lemma_one_value(i, j, ch, v, n);
    law_a_pixel_matches_itself(nlm, i, j, ch);
    let w = nlm.weight_sum(i, j, ch, n);
    assert(w * v == v * w) by (nonlinear_arith);
    lemma_fundamental_div_mod_converse(w * v + w / 2, w, v, w / 2);
    lemma_denoised(image, lut, template, search, i, j, ch);
}

/// Where the neighbourhood of a pixel is the pixel itself, a denoised sample is the
/// mean, rounded, of the samples in the window around it, each with the weight of
/// its channel for what the two pixels differ by in all three channels together (the
/// last weight, where the table ends before). It is zero where nothing has a weight.
pub proof fn law_single_pixels_are_weighed_by_their_distance(
    image: Img3,
    lut: Seq<[i32; 3]>,
    template: int,
    search: int,
    i: int,
    j: int,
    ch: int,
    weights: spec_fn(int) -> int,
    sums: spec_fn(int) -> int,
)
    requires
        image.inv(),
        nlm_fits(image, lut, template, search),
        template <= 1,
        0 <= i < image.rows,
        0 <= j < image.cols,
        0 <= ch < 3,
        weights(0) == 0,
        sums(0) == 0,
        ({
            let sr = search / 2;
            let sw = 2 * sr + 1;
            forall|dy: int, dx: int|
                #![trigger image.beyond(i + dy, j + dx, ch)]
                -sr <= dy <= sr && -sr <= dx <= sr ==> {
                    let k = (dy + sr) * sw + dx + sr;
                    let d = gap(image.at(i, j, 0) as int, image.beyond(i + dy, j + dx, 0)) + gap(
                        image.at(i, j, 1) as int,
                        image.beyond(i + dy, j + dx, 1),
                    ) + gap(image.at(i, j, 2) as int, image.beyond(i + dy, j + dx, 2));
                    let weight = lut[if d < lut.len() {
                        d
                    } else {
                        lut.len() - 1
                    }]@[ch];
                    &&& weights(k + 1) == weights(k) + weight
                    &&& sums(k + 1) == sums(k) + weight * image.beyond(i + dy, j + dx, ch)
                }
        }),
    ensures
        ({
            let sw = 2 * (search / 2) + 1;
            let (w, s) = (weights(sw * sw), sums(sw * sw));
            let r = nlm_image(image, lut, template, search)[(i * image.cols + j) * 3 + ch];
            &&& w >= 0
            &&& w == 0 ==> r == 0
            &&& w > 0 ==> w * r <= s + w / 2 < w * (r + 1)
        }),
{
    let nlm = nlm_of(image, lut, template, search);
    let (tr, sr) = (template / 2, search / 2);
    let sw = 2 * sr + 1;
    let n = sw * sw;
    lemma_nlm_inv(image, lut, template, search);
    lemma2_to64();
    lemma_exponent(0, 1);
    assert((2 * tr + 1) * (2 * tr + 1) == 1) by (nonlinear_arith)
        requires
            tr == 0,
    ;
    assert(nlm.bin == 1);
    law_mirror_keeps_the_image(i, image.rows as int);
    law_mirror_keeps_the_image(j, image.cols as int);
    assert(n >= 1) by (nonlinear_arith)
        requires
            n == sw * sw,
            sw >= 1,
    ;
    lemma_sums_of(image, lut, template, search, i, j, ch, weights, sums, n as nat);
    nlm.lemma_weights_from(i, j, ch, 0, n as nat);
    let (w, s) = (weights(n), sums(n));
    lemma_denoised(image, lut, template, search, i, j, ch);
    if w > 0 {
        nlm.lemma_mean_fits(i, j, ch);
        let r = (s + w / 2) / w;
        lemma_fundamental_div_mod(s + w / 2, w);
        lemma_mod_bound(s + w / 2, w);
        assert(w * (r + 1) == w * r + w) by (nonlinear_arith);
    }
}

/// The sums of weights and samples over the first places of a window.
proof fn lemma_sums_of(
    image: Img3,
    lut: Seq<[i32; 3]>,
    template: int,
    search: int,
    i: int,
    j: int,
    ch: int,
    weights: spec_fn(int) -> int,
    sums: spec_fn(int) -> int,
    n: nat,
)
    requires
        0 <= template <= 1,
        0 <= search,
        0 <= i < image.rows,
        0 <= j < image.cols,
        0 <= ch < 3,
        weights(0) == 0,
        sums(0) == 0,
        n <= (2 * (search / 2) + 1) * (2 * (search / 2) + 1),
        nlm_of(image, lut, template, search).bin == 1,
        ({
            let sr = search / 2;
            let sw = 2 * sr + 1;
            forall|dy: int, dx: int|
                #![trigger image.beyond(i + dy, j + dx, ch)]
                -sr <= dy <= sr && -sr <= dx <= sr ==> {
                    let k = (dy + sr) * sw + dx + sr;
                    let d = gap(image.at(i, j, 0) as int, image.beyond(i + dy, j + dx, 0)) + gap(
                        image.at(i, j, 1) as int,
                        image.beyond(i + dy, j + dx, 1),
                    ) + gap(image.at(i, j, 2) as int, image.beyond(i + dy, j + dx, 2));
                    let weight = lut[if d < lut.len() {
                        d
                    } else {
                        lut.len() - 1
                    }]@[ch];
                    &&& weights(k + 1) == weights(k) + weight
                    &&& sums(k + 1) == sums(k) + weight * image.beyond(i + dy, j + dx, ch)
                }
        }),
    ensures
        nlm_of(image, lut, template, search).weight_sum(i, j, ch, n) == weights(n as int),
        nlm_of(image, lut, template, search).estimate_sum(i, j, ch, n) == sums(n as int),
    decreases n,
{
    if n > 0 {
        lemma_sums_of(image, lut, template, search, i, j, ch, weights, sums, (n - 1) as nat);
        let nlm = nlm_of(image, lut, template, search);
        let sr = search / 2;
        let sw = 2 * sr + 1;
        let k = n - 1;
        nlm.lemma_place(k);
        let (y, x) = (k / sw, k % sw);
        let (dy, dx) = (y - sr, x - sr);
        vstd::arithmetic::div_mod::lemma_fundamental_div_mod(k, sw);
        assert((dy + sr) * sw + dx + sr == k) by (nonlinear_arith)
            requires
                dy + sr == y,
                dx + sr == x,
                k == sw * y + x,
        ;
        law_mirror_keeps_the_image(i, image.rows as int);
        law_mirror_keeps_the_image(j, image.cols as int);
        assert forall|c: int| 0 <= c < 3 implies nlm.sample(sr + i, sr + j, c) == image.at(i, j, c)
            && #[trigger] nlm.sample(i + y, j + x, c) == image.beyond(i + dy, j + dx, c) by {
            lemma_extended(image, lut, template, search, sr + i, sr + j, c);
            lemma_extended(image, lut, template, search, i + y, j + x, c);
            assert(i + y - sr == i + dy && j + x - sr == j + dx);
        }
        let there = (
            nlm.sample(i + y, j + x, 0),
            nlm.sample(i + y, j + x, 1),
            nlm.sample(i + y, j + x, 2),
        );
        nlm.lemma_single_pixel(i, j, k);
        assert(nlm.place_sample(i, j, k, ch) == image.beyond(i + dy, j + dx, ch));
    }
}

/// Choosing from samples and forgetting their order can change places.
proof fn lemma_filter_multiset(samples: Seq<u16>, p: spec_fn(u16) -> bool)
    ensures
        samples.filter(p).to_multiset() == samples.to_multiset().filter(p),
    decreases samples.len(),
{
    broadcast use group_to_multiset_ensures;

    reveal(Seq::filter);
    let m = samples.to_multiset();
    if samples.len() == 0 {
        assert(samples =~= Seq::<u16>::empty());
        assert(samples.filter(p) =~= Seq::<u16>::empty());
        assert(Seq::<u16>::empty().to_multiset() =~= m.filter(p));
    } else {
        let (rest, last) = (samples.drop_last(), samples.last());
        lemma_filter_multiset(rest, p);
        assert(samples =~= rest.push(last));
        assert(m =~= rest.to_multiset().insert(last));
        if p(last) {
            assert(samples.filter(p).to_multiset() =~= rest.filter(p).to_multiset().insert(last));
        }
        assert(samples.filter(p).to_multiset() =~= m.filter(p));
    }
}

/// Nothing is chosen where nothing fits.
proof fn lemma_filter_none(samples: Seq<u16>, p: spec_fn(u16) -> bool)
    requires
        forall|i: int| 0 <= i < samples.len() ==> !p(#[trigger] samples[i]),
    ensures
        samples.filter(p).len() == 0,
    decreases samples.len(),
{
    reveal(Seq::filter);
    if samples.len() > 0 {
        let rest = samples.drop_last();
        assert forall|i: int| 0 <= i < rest.len() implies !p(#[trigger] rest[i]) by {
            assert(rest[i] == samples[i]);
        }
        lemma_filter_none(rest, p);
        assert(!p(samples[samples.len() - 1]));
    }
}

/// The median is one of the samples, and no more than half of the others lie below it
/// or above it.
pub proof fn law_the_median_lies_in_the_middle(samples: Seq<u16>)
    requires
        samples.len() % 2 == 1,
    ensures
        samples.contains(median(samples)),
        2 * samples.filter(|s: u16| s < median(samples)).len() < samples.len(),
        2 * samples.filter(|s: u16| s > median(samples)).len() < samples.len(),
{
    broadcast use group_to_multiset_ensures;

    let leq = sample_order();
    assert(total_ordering(leq)) by {
        assert(vstd::relations::reflexive(leq));
        assert(vstd::relations::antisymmetric(leq));
        assert(vstd::relations::transitive(leq));
        assert(vstd::relations::strongly_connected(leq));
    }
    samples.lemma_sort_by_ensures(leq);
    let sorted = samples.sort_by(leq);
    let h = samples.len() as int / 2;
    let m = median(samples);
    assert(sorted.to_multiset().len() == samples.to_multiset().len());
    assert(sorted.len() == samples.len());
    assert(sorted[h] == m);
    assert(samples.contains(m)) by {
        assert(sorted.contains(sorted[h]));
        assert(sorted.to_multiset().count(m) > 0);
    }
    let below = |s: u16| s < m;
    let above = |s: u16| s > m;
    lemma_filter_multiset(samples, below);
    lemma_filter_multiset(sorted, below);
    lemma_filter_multiset(samples, above);
    lemma_filter_multiset(sorted, above);
    assert(samples.filter(below).to_multiset() =~= sorted.filter(below).to_multiset());
    assert(samples.filter(below).to_multiset().len() == samples.filter(below).len());
    assert(sorted.filter(below).to_multiset().len() == sorted.filter(below).len());
    assert(samples.filter(above).to_multiset() =~= sorted.filter(above).to_multiset());
    assert(samples.filter(above).to_multiset().len() == samples.filter(above).len());
    assert(sorted.filter(above).to_multiset().len() == sorted.filter(above).len());
    let (low, high) = (sorted.take(h), sorted.skip(h));
    assert(low + high =~= sorted);
    Seq::filter_distributes_over_add(low, high, below);
    low.lemma_filter_len(below);
    assert forall|i: int| 0 <= i < high.len() implies !below(#[trigger] high[i]) by {
        assert(leq(sorted[h], sorted[h + i]));
    }
    lemma_filter_none(high, below);
    let (first, last) = (sorted.take(h + 1), sorted.skip(h + 1));
    assert(first + last =~= sorted);
    Seq::filter_distributes_over_add(first, last, above);
    last.lemma_filter_len(above);
    assert forall|i: int| 0 <= i < first.len() implies !above(#[trigger] first[i]) by {
        assert(leq(sorted[i], sorted[h]));
    }
    lemma_filter_none(first, above);
    assert(samples.filter(|s: u16| s < median(samples)) =~= samples.filter(below));
    assert(samples.filter(|s: u16| s > median(samples)) =~= samples.filter(above));
}

/// The median filter replaces a sample by the middle one of nine: those of the same
/// channel in its row and column and the ones next to these, or at the edge where there
/// are none. The other channels stay.
pub proof fn law_the_median_filter_works_on_its_channel(
    image: Img3,
    ch: int,
    row: int,
    col: int,
    c: int,
    near: Seq<u16>,
)
    requires
        image.inv(),
        0 <= ch < 3,
        0 <= c < 3,
        0 <= row < image.rows,
        0 <= col < image.cols,
        near.len() == 9,
        forall|dy: int, dx: int|
            -1 <= dy <= 1 && -1 <= dx <= 1 ==> #[trigger] near[3 * (dy + 1) + dx + 1] == image.at(
                if row + dy < 0 || row + dy >= image.rows {
                    row
                } else {
                    row + dy
                },
                if col + dx < 0 || col + dx >= image.cols {
                    col
                } else {
                    col + dx
                },
                ch,
            ),
    ensures
        median_filtered(image, ch)[(row * image.cols + col) * 3 + c] == (if c == ch {
            median(near)
        } else {
            image.at(row, col, c)
        }),
{
    lemma_packed(image.rows as int, image.cols as int, row, col, c);
    let nine = around(image, row, col, ch);
    assert forall|k: int| 0 <= k < 9 implies #[trigger] nine[k] == near[k] by {
        let (dy, dx) = (k / 3 - 1, k % 3 - 1);
        assert(3 * (dy + 1) + dx + 1 == k);
    }
    assert(nine =~= near);
}

/// An image less its difference to another one is the other one, wherever the difference
/// is a signed 16-bit number.
pub proof fn law_subtracting_the_difference_gives_the_other(a: u16, b: u16)
    requires
        -0x8000 <= a - b <= 0x7fff,
    ensures
        saturated(a - saturated_i16(a - b)) == b,
        saturated_i16(a - b) == a - b,
{
}

/// A pixel of a window stands in a packed image by its row and column, and a window that
/// is packed and unpacked again is as it was.
pub proof fn law_windows_are_packed_and_unpacked(
    data: Seq<u16>,
    w: Window,
    image: Seq<u16>,
    row: int,
    column: int,
    ch: int,
)
    requires
        w.inside(data.len() as int),
        w.channels == 3,
        image.len() == w.rows * w.columns * 3,
        0 <= row < w.rows,
        0 <= column < w.columns,
        0 <= ch < 3,
    ensures
        ({
            let i = w.offset + row * w.row_stride + column * 3 + ch;
            let n = (row * w.columns + column) * 3 + ch;
            &&& packed(data, w)[n] == data[i]
            &&& unpacked(data, w, image)[i] == image[n]
        }),
        unpacked(data, w, packed(data, w)) == data,
{
    lemma_packed(w.rows as int, w.columns as int, row, column, ch);
    w.lemma_index(row, column, ch);
    let back = unpacked(data, w, packed(data, w));
    assert forall|i: int| 0 <= i < data.len() implies back[i] == data[i] by {
        if w.holds(i) {
            w.lemma_holds(i);
            lemma_packed(
                w.rows as int,
                w.columns as int,
                w.row_of(i),
                w.column_of(i),
                w.channel_of(i),
            );
        }
    }
    assert(back =~= data);
}

/// Whether these are the sums of the weights and of the weighted samples over the window
/// around a pixel, row by row: a sample has the weight of its channel for what its
/// neighbourhood differs by from the one of the pixel, in whole bins of two to the power of
/// `e`, or the last weight where the table ends before.
pub open spec fn weighs_window(
    image: Img3,
    lut: Seq<[i32; 3]>,
    nlm: Nlm,
    e: nat,
    i: int,
    j: int,
    ch: int,
    weights: spec_fn(int) -> int,
    sums: spec_fn(int) -> int,
) -> bool {
    let sr = nlm.sr;
    &&& weights(0) == 0
    &&& sums(0) == 0
    &&& forall|dy: int, dx: int|
        #![trigger image.beyond(i + dy, j + dx, ch)]
        -sr <= dy <= sr && -sr <= dx <= sr ==> {
            let k = (dy + sr) * (2 * sr + 1) + dx + sr;
            let d = nlm.patch_dist(i, j, k) / pow2(e) as int;
            let weight = lut[if d < lut.len() {
                d
            } else {
                lut.len() - 1
            }]@[ch];
            &&& weights(k + 1) == weights(k) + weight
            &&& sums(k + 1) == sums(k) + weight * image.beyond(i + dy, j + dx, ch)
        }
}

/// A denoised sample is the mean, rounded, of the samples in the window around it, each with
/// the weight of its channel for what its neighbourhood differs by from the one of the
/// sample, in whole bins (the last weight, where the table ends before). It is zero where
/// nothing has a weight. A bin is the smallest power of two that is not below the number of
/// pixels of a neighbourhood.
pub proof fn law_denoised_samples_are_weighted_means(
    image: Img3,
    lut: Seq<[i32; 3]>,
    template: int,
    search: int,
    e: nat,
    i: int,
    j: int,
    ch: int,
    weights: spec_fn(int) -> int,
    sums: spec_fn(int) -> int,
)
    requires
        image.inv(),
        nlm_fits(image, lut, template, search),
        0 <= i < image.rows,
        0 <= j < image.cols,
        0 <= ch < 3,
        ({
            let pixels = (2 * (template / 2) + 1) * (2 * (template / 2) + 1);
            pixels <= pow2(e) < 2 * pixels
        }),
        weighs_window(
            image,
            lut,
            nlm_of(image, lut, template, search),
            e,
            i,
            j,
            ch,
            weights,
            sums,
        ),
    ensures
        ({
            let sw = 2 * (search / 2) + 1;
            let (w, s) = (weights(sw * sw), sums(sw * sw));
            let r = nlm_image(image, lut, template, search)[(i * image.cols + j) * 3 + ch];
            &&& w >= 0
            &&& w == 0 ==> r == 0
            &&& w > 0 ==> w * r <= s + w / 2 < w * (r + 1)
        }),
{
    let nlm = nlm_of(image, lut, template, search);
    let (tr, sr) = (template / 2, search / 2);
    let sw = 2 * sr + 1;
    let n = sw * sw;
    let pixels = (2 * tr + 1) * (2 * tr + 1);
    lemma_nlm_inv(image, lut, template, search);
    if e > 0 {
        vstd::arithmetic::power2::lemma_pow2_unfold(e);
    }
    lemma_exponent(e, pixels);
    assert(nlm.bin == pow2(e));
    assert(n >= 1) by (nonlinear_arith)
        requires
            n == sw * sw,
            sw >= 1,
    ;
    lemma_weighted_sums(image, lut, template, search, e, i, j, ch, weights, sums, n as nat);
    nlm.lemma_weights_from(i, j, ch, 0, n as nat);
    let (w, s) = (weights(n), sums(n));
    lemma_denoised(image, lut, template, search, i, j, ch);
    if w > 0 {
        nlm.lemma_mean_fits(i, j, ch);
        let r = (s + w / 2) / w;
        lemma_fundamental_div_mod(s + w / 2, w);
        lemma_mod_bound(s + w / 2, w);
        assert(w * (r + 1) == w * r + w) by (nonlinear_arith);
    }
}

/// The sums of weights and weighted samples over the first places of a window.
proof fn lemma_weighted_sums(
    image: Img3,
    lut: Seq<[i32; 3]>,
    template: int,
    search: int,
    e: nat,
    i: int,
    j: int,
    ch: int,
    weights: spec_fn(int) -> int,
    sums: spec_fn(int) -> int,
    n: nat,
)
    requires
        0 <= template,
        0 <= search,
        0 <= i < image.rows,
        0 <= j < image.cols,
        0 <= ch < 3,
        n <= (2 * (search / 2) + 1) * (2 * (search / 2) + 1),
        nlm_of(image, lut, template, search).bin == pow2(e),
        weighs_window(
            image,
            lut,
            nlm_of(image, lut, template, search),
            e,
            i,
            j,
            ch,
            weights,
            sums,
        ),
    ensures
        nlm_of(image, lut, template, search).weight_sum(i, j, ch, n) == weights(n as int),
        nlm_of(image, lut, template, search).estimate_sum(i, j, ch, n) == sums(n as int),
    decreases n,
{
    if n > 0 {
        lemma_weighted_sums(
            image,
            lut,
            template,
            search,
            e,
            i,
            j,
            ch,
            weights,
            sums,
            (n - 1) as nat,
        );
        let nlm = nlm_of(image, lut, template, search);
        let (tr, sr) = (template / 2, search / 2);
        let sw = 2 * sr + 1;
        let k = n - 1;
        nlm.lemma_place(k);
        let (y, x) = (k / sw, k % sw);
        let (dy, dx) = (y - sr, x - sr);
        vstd::arithmetic::div_mod::lemma_fundamental_div_mod(k, sw);
        assert((dy + sr) * sw + dx + sr == k) by (nonlinear_arith)
            requires
                dy + sr == y,
                dx + sr == x,
                k == sw * y + x,
        ;
        lemma_extended(image, lut, template, search, tr + i + y, tr + j + x, ch);
        assert(tr + i + y - (tr + sr) == i + dy && tr + j + x - (tr + sr) == j + dx);
        assert(nlm.place_sample(i, j, k, ch) == image.beyond(i + dy, j + dx, ch));
    }
}

/// What the neighbourhoods of two pixels of an image differ by is made up of what their
/// samples differ by, from as many rows above and columns before the pixels as below and
/// after them.
pub proof fn law_neighbourhoods_surround_their_pixels(
    image: Img3,
    lut: Seq<[i32; 3]>,
    template: int,
    search: int,
    i: int,
    j: int,
    dy: int,
    dx: int,
    a: int,
    b: int,
    ch: int,
)
    requires
        0 <= template,
        0 <= search,
        0 <= i < image.rows,
        0 <= j < image.cols,
        -(search / 2) <= dy <= search / 2,
        -(search / 2) <= dx <= search / 2,
        -(template / 2) <= a <= template / 2,
        -(template / 2) <= b <= template / 2,
        0 <= ch < 3,
    ensures
        ({
            let (tr, sr) = (template / 2, search / 2);
            let k = (dy + sr) * (2 * sr + 1) + dx + sr;
            let d = image.beyond(i + a, j + b, ch) - image.beyond(i + a + dy, j + b + dx, ch);
            nlm_of(image, lut, template, search).gap_at(i + tr + a, j + tr + b, k, ch) == (if d < 0 {
                -d
            } else {
                d
            })
        }),
{
    let (tr, sr) = (template / 2, search / 2);
    let sw = 2 * sr + 1;
    let k = (dy + sr) * sw + dx + sr;
    let (p, q) = (i + tr + a, j + tr + b);
    lemma_fundamental_div_mod_converse(k, sw, dy + sr, dx + sr);
    lemma_extended(image, lut, template, search, sr + p, sr + q, ch);
    lemma_extended(image, lut, template, search, p + dy + sr, q + dx + sr, ch);
    assert(sr + p - (tr + sr) == i + a && sr + q - (tr + sr) == j + b);
    assert(p + dy + sr - (tr + sr) == i + a + dy && q + dx + sr - (tr + sr) == j + b + dx);
    assert(p + (dy + sr) == p + dy + sr && q + (dx + sr) == q + dx + sr);
}

} // verus!
