//! Non-local means: every pixel becomes a weighted mean of the pixels around it,
//! with weights by how alike their neighbourhoods are.

use crate::area::lemma_cell;
use vstd::arithmetic::div_mod::{lemma_fundamental_div_mod_converse, lemma_mod_bound};
use vstd::arithmetic::power2::{lemma2_to64, lemma_pow2_unfold, pow2};
use vstd::prelude::*;

verus! {

/// The largest distance between two pixels of three channels.
pub const MAX_DIST: i32 = 196605;

/// Whether the power of two with this exponent is the smallest that is not below
/// `value`.
pub open spec fn is_exponent(p: nat, value: int) -> bool {
    pow2(p) >= value && (p > 0 ==> pow2((p - 1) as nat) < value)
}

/// The exponent of the smallest power of two that is not below `value`.
pub open spec fn exponent(value: int) -> nat {
    choose|p: nat| is_exponent(p, value)
}

/// There is only one such exponent.
pub proof fn lemma_exponent(p: nat, value: int)
    requires
        is_exponent(p, value),
    ensures
        exponent(value) == p,
{
    let q = exponent(value);
    if p < q {
        if p < q - 1 {
            vstd::arithmetic::power2::lemma_pow2_strictly_increases(p, (q - 1) as nat);
        }
    } else if q < p {
        if q < p - 1 {
            vstd::arithmetic::power2::lemma_pow2_strictly_increases(q, (p - 1) as nat);
        }
    }
}

/// The smallest power of two, by its exponent, that is not below `value`.
pub fn nearest_pow2(value: i32) -> (p: u32)
    ensures
        p == exponent(value as int),
        is_exponent(p as nat, value as int),
        p <= 31,
{
    let mut p: u32 = 0;
    let mut span: i64 = 1;
    proof {
        lemma2_to64();
    }
    while span < value as i64
        invariant
            span == pow2(p as nat),
            p > 0 ==> pow2((p - 1) as nat) < value,
            p <= 31,
            span <= 0x8000_0000,
            p == 31 ==> span == 0x8000_0000,
        decreases 0x8000_0000 - span,
    {
        span = span * 2;
        p = p + 1;
        proof {
            lemma_pow2_unfold(p as nat);
            lemma2_to64();
            if p < 31 {
                vstd::arithmetic::power2::lemma_pow2_strictly_increases(p as nat, 31);
            } else if p > 31 {
                assert(pow2(31) == 0x8000_0000);
            }
        }
    }
    proof {
        lemma_exponent(p as nat, value as int);
    }
    p
}

/// The smallest power of two that is not below `value`.
pub fn bin_size(value: i32) -> (bin: i32)
    requires
        value <= 0x4000_0000,
    ensures
        bin == pow2(exponent(value as int)),
        0 < bin,
{
    let p: u32 = nearest_pow2(value);
    let mut bin: i32 = 1;
    let mut k: u32 = 0;
    proof {
        lemma2_to64();
        if p > 30 {
            assert(pow2(30) >= value);
            assert(pow2((p - 1) as nat) >= pow2(30));
        }
    }
    while k < p
        invariant
            k <= p <= 30,
            bin == pow2(k as nat),
            0 < bin,
        decreases p - k,
    {
        proof {
            lemma2_to64();
            lemma_pow2_unfold((k + 1) as nat);
            if k + 1 < 30 {
                vstd::arithmetic::power2::lemma_pow2_strictly_increases((k + 1) as nat, 30);
            }
        }
        bin = bin * 2;
        k = k + 1;
    }
    bin
}

/// An image and the windows that it is denoised by. The image is extended on all
/// sides by the reach of the windows.
pub struct NlmCtx<'a> {
    /// The extended image: rows of pixels of three samples.
    pub ext: &'a Vec<u16>,
    pub ext_cols: usize,
    /// The size of the image without its extension.
    pub rows: usize,
    pub cols: usize,
    /// How far the neighbourhood of a pixel reaches.
    pub tr: usize,
    /// How far the pixels lie that are compared with it.
    pub sr: usize,
    /// Neighbourhoods that differ by less than this weigh the same.
    pub bin: i32,
    /// The weights per channel, by the difference in units of `bin`.
    pub lut: &'a Vec<[i32; 3]>,
}

/// What is denoised, and how: the model of [`NlmCtx`].
pub ghost struct Nlm {
    pub ext: Seq<u16>,
    pub ext_cols: int,
    pub rows: int,
    pub cols: int,
    pub tr: int,
    pub sr: int,
    pub bin: int,
    pub lut: Seq<[i32; 3]>,
}

impl<'a> View for NlmCtx<'a> {
    type V = Nlm;

    open spec fn view(&self) -> Nlm {
        Nlm {
            ext: self.ext@,
            ext_cols: self.ext_cols as int,
            rows: self.rows as int,
            cols: self.cols as int,
            tr: self.tr as int,
            sr: self.sr as int,
            bin: self.bin as int,
            lut: self.lut@,
        }
    }
}

/// The distance of two numbers.
pub open spec fn gap(a: int, b: int) -> int {
    if a < b {
        b - a
    } else {
        a - b
    }
}

impl Nlm {
    /// The size of a neighbourhood.
    pub open spec fn tw(self) -> int {
        2 * self.tr + 1
    }

    /// The size of the window that is searched.
    pub open spec fn sw(self) -> int {
        2 * self.sr + 1
    }

    /// The number of pixels that each pixel is compared with.
    pub open spec fn places(self) -> int {
        self.sw() * self.sw()
    }

    pub open spec fn ext_rows(self) -> int {
        self.rows + 2 * (self.sr + self.tr)
    }

    /// The tables fit the windows, and no sum is too large: 51 is the farthest
    /// reach of a neighbourhood whose differences add up to 32 bits.
    pub open spec fn inv(self) -> bool {
        &&& 0 < self.rows
        &&& 0 < self.cols
        &&& 0 <= self.tr <= 51
        &&& 0 <= self.sr
        &&& self.ext_cols == self.cols + 2 * (self.sr + self.tr)
        &&& self.ext.len() == self.ext_rows() * self.ext_cols * 3
        &&& self.ext.len() <= usize::MAX
        &&& self.cols * self.places() <= usize::MAX
        &&& self.tw() * self.places() <= usize::MAX
        &&& 0 < self.bin
        &&& 0 < self.lut.len() <= usize::MAX
        &&& forall|d: int, ch: int|
            0 <= d < self.lut.len() && 0 <= ch < 3 ==> 0 <= #[trigger] self.lut[d]@[ch]
                && self.lut[d]@[ch] * 0xffff * self.places() <= i64::MAX
    }

    /// A sample of the extended image.
    pub open spec fn sample(self, y: int, x: int, ch: int) -> int {
        self.ext[(y * self.ext_cols + x) * 3 + ch] as int
    }

    /// The distance of two pixels of the extended image.
    pub open spec fn dist_of(self, y1: int, x1: int, y2: int, x2: int) -> int {
        gap(self.sample(y1, x1, 0), self.sample(y2, x2, 0)) + gap(
            self.sample(y1, x1, 1),
            self.sample(y2, x2, 1),
        ) + gap(self.sample(y1, x1, 2), self.sample(y2, x2, 2))
    }

    /// The distance of a pixel from the one at place `k` of the window around
    /// it. Rows and columns are counted from the first that a neighbourhood
    /// reaches.
    pub open spec fn place_dist(self, p: int, q: int, k: int) -> int {
        self.dist_of(self.sr + p, self.sr + q, p + k / self.sw(), q + k % self.sw())
    }

    /// The distances in the first `n` rows of one column of a neighbourhood that
    /// begins in row `i`.
    pub open spec fn col_dist(self, i: int, q: int, k: int, n: nat) -> int
        decreases n,
    {
        if n == 0 {
            0
        } else {
            self.col_dist(i, q, k, (n - 1) as nat) + self.place_dist(i + n - 1, q, k)
        }
    }

    /// The distances in one column of a neighbourhood.
    pub open spec fn column(self, i: int, q: int, k: int) -> int {
        self.col_dist(i, q, k, self.tw() as nat)
    }

    /// The distances in the first `n` columns of the neighbourhood of a pixel.
    pub open spec fn cols_dist(self, i: int, j: int, k: int, n: nat) -> int
        decreases n,
    {
        if n == 0 {
            0
        } else {
            self.cols_dist(i, j, k, (n - 1) as nat) + self.column(i, j + n - 1, k)
        }
    }

    /// How much the neighbourhood of a pixel differs from the one at place `k`
    /// of the window around it.
    pub open spec fn patch_dist(self, i: int, j: int, k: int) -> int {
        self.cols_dist(i, j, k, self.tw() as nat)
    }

    /// What weight a difference has in a channel.
    pub open spec fn weight_of(self, dist: int, ch: int) -> int {
        let d = dist / self.bin;
        self.lut[if d < self.lut.len() {
            d
        } else {
            self.lut.len() - 1
        }]@[ch] as int
    }

    /// What weight place `k` has for a pixel.
    pub open spec fn weight(self, i: int, j: int, k: int, ch: int) -> int {
        self.weight_of(self.patch_dist(i, j, k), ch)
    }

    /// The sum of the first `n` weights.
    pub open spec fn weight_sum(self, i: int, j: int, ch: int, n: nat) -> int
        decreases n,
    {
        if n == 0 {
            0
        } else {
            self.weight_sum(i, j, ch, (n - 1) as nat) + self.weight(i, j, n - 1, ch)
        }
    }

    /// The sample at place `k` of the window around a pixel.
    pub open spec fn place_sample(self, i: int, j: int, k: int, ch: int) -> int {
        self.sample(self.tr + i + k / self.sw(), self.tr + j + k % self.sw(), ch)
    }

    /// The sum of the first `n` samples, each times its weight.
    pub open spec fn estimate_sum(self, i: int, j: int, ch: int, n: nat) -> int
        decreases n,
    {
        if n == 0 {
            0
        } else {
            self.estimate_sum(i, j, ch, (n - 1) as nat) + self.weight(i, j, n - 1, ch)
                * self.place_sample(i, j, n - 1, ch)
        }
    }

    /// A sample of the denoised image: the rounded weighted mean.
    pub open spec fn denoised(self, i: int, j: int, ch: int) -> u16 {
        let n = self.places() as nat;
        let w = self.weight_sum(i, j, ch, n);
        if w > 0 {
            ((self.estimate_sum(i, j, ch, n) + w / 2) / w) as u16
        } else {
            0
        }
    }

    /// The rows from `from` to `to` of the denoised image.
    pub open spec fn band(self, from: int, to: int) -> Seq<u16> {
        Seq::new(
            ((to - from) * self.cols * 3) as nat,
            |n: int|
                self.denoised(
                    from + (n / 3) / self.cols,
                    (n / 3) % self.cols,
                    n % 3,
                ),
        )
    }

    proof fn lemma_dist_bound(self, y1: int, x1: int, y2: int, x2: int)
        ensures
            0 <= self.dist_of(y1, x1, y2, x2) <= MAX_DIST,
    {
    }

    proof fn lemma_col_bound(self, i: int, q: int, k: int, n: nat)
        ensures
            0 <= self.col_dist(i, q, k, n) <= n * MAX_DIST,
        decreases n,
    {
        if n > 0 {
            self.lemma_col_bound(i, q, k, (n - 1) as nat);
            self.lemma_dist_bound(
                self.sr + (i + n - 1),
                self.sr + q,
                (i + n - 1) + k / self.sw(),
                q + k % self.sw(),
            );
        }
    }

    proof fn lemma_cols_bound(self, i: int, j: int, k: int, n: nat)
        requires
            0 <= self.tr <= 51,
        ensures
            0 <= self.cols_dist(i, j, k, n) <= n * 20250315,
        decreases n,
    {
        if n > 0 {
            self.lemma_cols_bound(i, j, k, (n - 1) as nat);
            self.lemma_col_bound(i, j + n - 1, k, self.tw() as nat);
        }
    }

    /// A column of distances, one row further down.
    proof fn lemma_next_row(self, i: int, q: int, k: int, n: nat)
        ensures
            self.col_dist(i, q, k, n) == self.col_dist(i - 1, q, k, n) + self.place_dist(
                i + n - 1,
                q,
                k,
            ) - self.place_dist(i - 1, q, k),
        decreases n,
    {
        if n > 0 {
            self.lemma_next_row(i, q, k, (n - 1) as nat);
        }
    }

    /// A neighbourhood, one column further to the right.
    proof fn lemma_next_column(self, i: int, j: int, k: int, n: nat)
        ensures
            self.cols_dist(i, j, k, n) == self.cols_dist(i, j - 1, k, n) + self.column(
                i,
                j + n - 1,
                k,
            ) - self.column(i, j - 1, k),
        decreases n,
    {
        if n > 0 {
            self.lemma_next_column(i, j, k, (n - 1) as nat);
        }
    }

    /// A sample of the extended image stands inside its buffer.
    proof fn lemma_sample(self, y: int, x: int, ch: int)
        requires
            self.inv(),
            0 <= y < self.ext_rows(),
            0 <= x < self.ext_cols,
            0 <= ch < 3,
        ensures
            0 <= y * self.ext_cols,
            0 <= (y * self.ext_cols + x) * 3 + ch < self.ext.len(),
    {
        let w = self.ext_cols as int;
        assert(0 <= y * w) by (nonlinear_arith)
            requires
                0 <= y,
                0 <= w,
        ;
        assert(y * w + w <= self.ext_rows() * w) by (nonlinear_arith)
            requires
                y + 1 <= self.ext_rows(),
                0 <= w,
        ;
    }

    /// A place of the window has its row and column in it.
    pub proof fn lemma_place(self, k: int)
        requires
            0 <= self.sr,
            0 <= k < self.places(),
        ensures
            0 <= k / self.sw() < self.sw(),
            0 <= k % self.sw() < self.sw(),
    {
        let s = self.sw();
        lemma_mod_bound(k, s);
        vstd::arithmetic::div_mod::lemma_fundamental_div_mod(k, s);
        assert(0 <= k / s < s) by (nonlinear_arith)
            requires
                0 <= k < s * s,
                k == s * (k / s) + k % s,
                0 <= k % s < s,
                s > 0,
        ;
    }

    /// Rows and columns of the extended image are numbers of this machine.
    pub proof fn lemma_small(self)
        requires
            self.inv(),
        ensures
            self.ext_rows() < usize::MAX,
            self.ext_cols < usize::MAX,
    {
        assert(self.ext_rows() * self.ext_cols * 3 >= 3 * self.ext_rows()) by (nonlinear_arith)
            requires
                self.ext_cols >= 1,
                self.ext_rows() >= 1,
        ;
        assert(self.ext_rows() * self.ext_cols * 3 >= 3 * self.ext_cols) by (nonlinear_arith)
            requires
                self.ext_cols >= 1,
                self.ext_rows() >= 1,
        ;
    }
}

impl<'a> NlmCtx<'a> {
    /// The distance of two pixels of the extended image.
    fn dist(&self, y1: usize, x1: usize, y2: usize, x2: usize) -> (d: i32)
        requires
            self@.inv(),
            y1 < self@.ext_rows(),
            y2 < self@.ext_rows(),
            x1 < self.ext_cols,
            x2 < self.ext_cols,
        ensures
            d == self@.dist_of(y1 as int, x1 as int, y2 as int, x2 as int),
            0 <= d <= MAX_DIST,
    {
        proof {
            self@.lemma_sample(y1 as int, x1 as int, 2);
            self@.lemma_sample(y2 as int, x2 as int, 2);
        }
        let i1: usize = (y1 * self.ext_cols + x1) * 3;
        let i2: usize = (y2 * self.ext_cols + x2) * 3;
        let e: &Vec<u16> = self.ext;
        gap_of(e[i1], e[i2]) + gap_of(e[i1 + 1], e[i2 + 1]) + gap_of(e[i1 + 2], e[i2 + 2])
    }

    /// The distance of a pixel from the one at a place of the window around it.
    fn dist_at(&self, p: usize, q: usize, y: usize, x: usize, Ghost(k): Ghost<int>) -> (d: i32)
        requires
            self@.inv(),
            p < self.rows + 2 * self.tr,
            q < self.cols + 2 * self.tr,
            0 <= k < self@.places(),
            y == k / self@.sw(),
            x == k % self@.sw(),
        ensures
            d == self@.place_dist(p as int, q as int, k),
            0 <= d <= MAX_DIST,
    {
        proof {
            self@.lemma_place(k);
            self@.lemma_sample(0, 0, 0);
            assert(self@.ext_rows() <= self.ext@.len()) by (nonlinear_arith)
                requires
                    self.ext@.len() == self@.ext_rows() * self.ext_cols * 3,
                    self.ext_cols >= 1,
                    self@.ext_rows() >= 0,
            ;
        }
        self.dist(self.sr + p, self.sr + q, p + y, q + x)
    }

    /// The distances in one column of a neighbourhood.
    fn column_at(&self, i: usize, q: usize, y: usize, x: usize, Ghost(k): Ghost<int>) -> (s: i32)
        requires
            self@.inv(),
            i < self.rows,
            q < self.cols + 2 * self.tr,
            0 <= k < self@.places(),
            y == k / self@.sw(),
            x == k % self@.sw(),
        ensures
            s == self@.column(i as int, q as int, k),
            0 <= s <= 103 * MAX_DIST,
    {
        let tw: usize = 2 * self.tr + 1;
        let mut s: i32 = 0;
        let mut t: usize = 0;
        while t < tw
            invariant
                t <= tw,
                tw == self@.tw(),
                tw <= 103,
                self@.inv(),
                i < self.rows,
                q < self.cols + 2 * self.tr,
                0 <= k < self@.places(),
                y == k / self@.sw(),
                x == k % self@.sw(),
                s == self@.col_dist(i as int, q as int, k, t as nat),
                0 <= s <= t * MAX_DIST,
            decreases tw - t,
        {
            assert(i + t < usize::MAX) by {
                self@.lemma_small();
            }
            let d: i32 = self.dist_at(i + t, q, y, x, Ghost(k));
            s = s + d;
            t = t + 1;
        }
        s
    }
}

/// The distance of two samples.
fn gap_of(a: u16, b: u16) -> (d: i32)
    ensures
        d == gap(a as int, b as int),
        0 <= d <= 0xffff,
{
    if a < b {
        b as i32 - a as i32
    } else {
        a as i32 - b as i32
    }
}

/// The running sums while a row is denoised from left to right.
struct Sums {
    /// Per place, the difference of the neighbourhoods.
    dist: Vec<i32>,
    /// Per column of the neighbourhood and per place, the distances in it.
    col: Vec<i32>,
    /// Per column of the image and per place, the distances in the column of the
    /// neighbourhood that was entered there last.
    up: Vec<i32>,
}

impl Sums {
    spec fn col_at(self, n: int, a: int, k: int) -> int {
        self.col@[a * n + k] as int
    }

    spec fn up_at(self, n: int, a: int, k: int) -> int {
        self.up@[a * n + k] as int
    }

    /// The sums are as long as the windows of `ctx` ask for.
    spec fn shaped(self, ctx: Nlm) -> bool {
        &&& self.dist@.len() == ctx.places()
        &&& self.col@.len() == ctx.tw() * ctx.places()
        &&& self.up@.len() == ctx.cols * ctx.places()
    }

    /// The sums of the row above, for the columns from `c` on.
    spec fn above(self, ctx: Nlm, i: int, from: int, k: int) -> bool {
        forall|c: int|
            from <= c < ctx.cols ==> #[trigger] self.up_at(ctx.places(), c, k) == ctx.column(
                i - 1,
                c + ctx.tw() - 1,
                k,
            )
    }

    /// The sums at pixel (`i`, `j`), for place `k`.
    spec fn stand_at(self, ctx: Nlm, i: int, j: int, k: int) -> bool {
        let n = ctx.places();
        &&& self.dist@[k] == ctx.patch_dist(i, j, k)
        &&& forall|q: int|
            j <= q < j + ctx.tw() ==> self.col_at(n, q % ctx.tw(), k) == #[trigger] ctx.column(
                i,
                q,
                k,
            )
        &&& forall|c: int|
            0 <= c <= j ==> #[trigger] self.up_at(n, c, k) == ctx.column(i, c + ctx.tw() - 1, k)
    }

    /// The sums for a place are the same.
    spec fn same_at(self, other: Sums, ctx: Nlm, k: int) -> bool {
        let n = ctx.places();
        &&& self.dist@[k] == other.dist@[k]
        &&& forall|a: int|
            0 <= a < ctx.tw() ==> #[trigger] self.col_at(n, a, k) == other.col_at(n, a, k)
        &&& forall|a: int|
            0 <= a < ctx.cols ==> #[trigger] self.up_at(n, a, k) == other.up_at(n, a, k)
    }

    proof fn lemma_same(self, other: Sums, ctx: Nlm, i: int, j: int, k: int)
        requires
            self.same_at(other, ctx, k),
            0 <= j < ctx.cols,
        ensures
            other.stand_at(ctx, i, j, k) ==> self.stand_at(ctx, i, j, k),
            forall|from: int|
                0 <= from && other.above(ctx, i, from, k) ==> #[trigger] self.above(
                    ctx,
                    i,
                    from,
                    k,
                ),
    {
        if other.stand_at(ctx, i, j, k) {
            assert forall|q: int| j <= q < j + ctx.tw() implies self.col_at(
                ctx.places(),
                q % ctx.tw(),
                k,
            ) == #[trigger] ctx.column(i, q, k) by {
                lemma_mod_bound(q, ctx.tw());
            }
        }
    }
}

impl Nlm {
    /// The size of the tables of running sums.
    proof fn lemma_sizes(self)
        requires
            self.inv(),
        ensures
            0 < self.sw() <= self.places() <= usize::MAX,
            self.tw() * self.places() <= usize::MAX,
    {
        let (s, n) = (self.sw(), self.places());
        assert(s <= n) by (nonlinear_arith)
            requires
                n == s * s,
                1 <= s,
        ;
        assert(n <= self.cols * n) by (nonlinear_arith)
            requires
                0 <= n,
                1 <= self.cols,
        ;
    }
}

impl<'a> NlmCtx<'a> {
    /// Sets the sums for place `k` at the beginning of a row.
    fn begin_place(&self, s: &mut Sums, i: usize, y: usize, x: usize, n: usize, k: usize)
        requires
            self@.inv(),
            old(s).shaped(self@),
            i < self.rows,
            n == self@.places(),
            k < n,
            y == k as int / self@.sw(),
            x == k as int % self@.sw(),
        ensures
            final(s).shaped(self@),
            final(s).stand_at(self@, i as int, 0, k as int),
            forall|c: int|
                1 <= c < self.cols ==> #[trigger] final(s).up_at(n as int, c, k as int) == old(
                    s,
                ).up_at(n as int, c, k as int),
            forall|l: int|
                0 <= l < n && l != k ==> #[trigger] final(s).same_at(*old(s), self@, l),
    {
        let tw: usize = 2 * self.tr + 1;
        let mut total: i32 = 0;
        let mut t: usize = 0;
        proof {
            self@.lemma_sizes();
        }
        while t < tw
            invariant
                self@.inv(),
                s.shaped(self@),
                i < self.rows,
                n == self@.places(),
                n <= usize::MAX,
                k < n,
                y == k as int / self@.sw(),
                x == k as int % self@.sw(),
                tw == self@.tw(),
                tw <= 103,
                t <= tw,
                total == self@.cols_dist(i as int, 0, k as int, t as nat),
                0 <= total <= t * 20250315,
                s.dist == old(s).dist,
                s.up == old(s).up,
                forall|a: int|
                    0 <= a < t ==> #[trigger] s.col_at(n as int, a, k as int) == self@.column(
                        i as int,
                        a,
                        k as int,
                    ),
                forall|a: int, l: int|
                    0 <= a < tw && 0 <= l < n && l != k ==> #[trigger] s.col_at(n as int, a, l)
                        == old(s).col_at(n as int, a, l),
            decreases tw - t,
        {
            let ghost before = *s;
            let d: i32 = self.column_at(i, t, y, x, Ghost(k as int));
            proof {
                lemma_cell(t as int, k as int, tw as int, n as int);
                self@.lemma_sizes();
            }
            total = total + d;
            s.col.set(t * n + k, d);
            proof {
                assert forall|a: int, l: int| 0 <= a < tw && 0 <= l < n && !(a == t && l
                    == k) implies #[trigger] s.col_at(n as int, a, l) == before.col_at(
                    n as int,
                    a,
                    l,
                ) by {
                    lemma_cell(a, l, tw as int, n as int);
                }
            }
            t = t + 1;
        }
        let ghost before = *s;
        proof {
            lemma_cell(0, k as int, self.cols as int, n as int);
            lemma_cell(tw - 1, k as int, tw as int, n as int);
        }
        s.dist.set(k, total);
        let last: i32 = s.col[(tw - 1) * n + k];
        s.up.set(k, last);
        proof {
            let m = n as int;
            assert(s.col_at(m, tw - 1, k as int) == before.col_at(m, tw - 1, k as int));
            assert forall|q: int| 0 <= q < tw implies s.col_at(m, q % self@.tw(), k as int)
                == #[trigger] self@.column(i as int, q, k as int) by {
                vstd::arithmetic::div_mod::lemma_small_mod(q as nat, tw as nat);
                assert(before.col_at(m, q, k as int) == s.col_at(m, q, k as int));
            }
            assert(s.up_at(m, 0, k as int) == last);
            assert forall|a: int, l: int| 0 <= a < self.cols && 0 <= l < n && !(a == 0 && l
                == k) implies #[trigger] s.up_at(m, a, l) == before.up_at(m, a, l) by {
                lemma_cell(a, l, self.cols as int, m);
            }
            assert forall|a: int, l: int| 0 <= a < self.cols && 0 <= l < n && !(a == 0 && l
                == k) implies #[trigger] s.up_at(m, a, l) == old(s).up_at(m, a, l) by {
                assert(before.up_at(m, a, l) == old(s).up_at(m, a, l));
            }
            assert forall|l: int| 0 <= l < n && l != k implies #[trigger] s.same_at(
                *old(s),
                self@,
                l,
            ) by {
                assert forall|a: int| 0 <= a < self@.tw() implies #[trigger] s.col_at(m, a, l)
                    == old(s).col_at(m, a, l) by {
                    assert(before.col_at(m, a, l) == s.col_at(m, a, l));
                }
            }
        }
    }

    /// Moves the sums for place `k` one pixel to the right. `above` says whether
    /// the sums of the row above are there to go on from.
    fn move_place(
        &self,
        s: &mut Sums,
        i: usize,
        j: usize,
        slot: usize,
        above: bool,
        y: usize,
        x: usize,
        n: usize,
        k: usize,
    )
        requires
            self@.inv(),
            old(s).shaped(self@),
            i < self.rows,
            0 < j < self.cols,
            slot == (j - 1) % self@.tw(),
            n == self@.places(),
            k < n,
            y == k as int / self@.sw(),
            x == k as int % self@.sw(),
            old(s).stand_at(self@, i as int, j - 1, k as int),
            above ==> i > 0 && old(s).above(self@, i as int, j as int, k as int),
        ensures
            final(s).shaped(self@),
            final(s).stand_at(self@, i as int, j as int, k as int),
            forall|c: int|
                j < c < self.cols ==> #[trigger] final(s).up_at(n as int, c, k as int) == old(
                    s,
                ).up_at(n as int, c, k as int),
            forall|l: int|
                0 <= l < n && l != k ==> #[trigger] final(s).same_at(*old(s), self@, l),
    {
        let tw: usize = 2 * self.tr + 1;
        let ghost (m, kk, ii, jj) = (n as int, k as int, i as int, j as int);
        let ghost t = tw as int;
        proof {
            self@.lemma_sizes();
            self@.lemma_small();
            lemma_mod_bound(j - 1, t);
            lemma_cell(slot as int, kk, t, m);
            lemma_cell(jj, kk, self.cols as int, m);
            self@.lemma_next_column(ii, jj, kk, tw as nat);
            self@.lemma_next_row(ii, jj + t - 1, kk, tw as nat);
            self@.lemma_cols_bound(ii, jj - 1, kk, tw as nat);
            self@.lemma_col_bound(ii, jj - 1, kk, tw as nat);
            assert(s.col_at(m, (jj - 1) % t, kk) == self@.column(ii, jj - 1, kk));
        }
        let q: usize = j + (tw - 1);
        let left: i32 = s.col[slot * n + k];
        let new_col: i32 = if above {
            assert(s.up_at(m, jj, kk) == self@.column(ii - 1, jj + t - 1, kk));
            proof {
                self@.lemma_col_bound(ii - 1, jj + t - 1, kk, tw as nat);
            }
            s.up[j * n + k] + (self.dist_at(i + (tw - 1), q, y, x, Ghost(kk)) - self.dist_at(
                i - 1,
                q,
                y,
                x,
                Ghost(kk),
            ))
        } else {
            self.column_at(i, q, y, x, Ghost(kk))
        };
        proof {
            self@.lemma_col_bound(ii, jj + t - 1, kk, tw as nat);
        }
        assert(new_col == self@.column(ii, jj + t - 1, kk));
        let d: i32 = s.dist[k] - left + new_col;
        s.dist.set(k, d);
        s.col.set(slot * n + k, new_col);
        s.up.set(j * n + k, new_col);
        proof {
            // The column that is entered takes the slot of the one that is left.
            vstd::arithmetic::div_mod::lemma_mod_add_multiples_vanish(jj - 1, t);
            assert((jj + t - 1) % t == slot);
            assert forall|a: int, l: int| 0 <= a < t && 0 <= l < m && !(a == slot && l
                == kk) implies #[trigger] s.col_at(m, a, l) == old(s).col_at(m, a, l) by {
                lemma_cell(a, l, t, m);
            }
            assert(s.col_at(m, slot as int, kk) == new_col);
            assert forall|a: int, l: int| 0 <= a < self.cols && 0 <= l < m && !(a == jj && l
                == kk) implies #[trigger] s.up_at(m, a, l) == old(s).up_at(m, a, l) by {
                lemma_cell(a, l, self.cols as int, m);
            }
            assert(s.up_at(m, jj, kk) == new_col);
            assert forall|q: int| jj <= q < jj + t implies s.col_at(m, q % t, kk)
                == #[trigger] self@.column(ii, q, kk) by {
                lemma_mod_bound(q, t);
                if q < jj + t - 1 {
                    lemma_slots(jj - 1, q, t);
                    assert(old(s).col_at(m, q % t, kk) == self@.column(ii, q, kk));
                }
            }
            assert forall|l: int| 0 <= l < m && l != kk implies #[trigger] s.same_at(
                *old(s),
                self@,
                l,
            ) by {}
        }
    }
}

/// Numbers that are less than `t` apart leave different remainders.
proof fn lemma_slots(a: int, b: int, t: int)
    requires
        a < b < a + t,
    ensures
        a % t != b % t,
{
    if a % t == b % t {
        vstd::arithmetic::div_mod::lemma_fundamental_div_mod(a, t);
        vstd::arithmetic::div_mod::lemma_fundamental_div_mod(b, t);
        let (qa, qb) = (a / t, b / t);
        assert(t * qb - t * qa == t * (qb - qa)) by (nonlinear_arith);
        assert(false) by (nonlinear_arith)
            requires
                0 < t * (qb - qa) < t,
        ;
    }
}

/// The next place of a window `sw` wide, by its row and column.
fn next_place(y: usize, x: usize, sw: usize, Ghost(k): Ghost<int>) -> (r: (usize, usize))
    requires
        0 < sw,
        0 <= k < usize::MAX,
        y == k / sw as int,
        x == k % sw as int,
    ensures
        r.0 == (k + 1) / sw as int,
        r.1 == (k + 1) % sw as int,
{
    let ghost s = sw as int;
    proof {
        vstd::arithmetic::div_mod::lemma_fundamental_div_mod(k, s);
        lemma_mod_bound(k, s);
        assert(k / s <= k) by (nonlinear_arith)
            requires
                0 <= k,
                0 < s,
        ;
        assert(s * (k / s) == (k / s) * s) by (nonlinear_arith);
        if x + 1 < sw {
            lemma_fundamental_div_mod_converse(k + 1, s, k / s, k % s + 1);
        } else {
            assert((k / s + 1) * s == (k / s) * s + s) by (nonlinear_arith);
            lemma_fundamental_div_mod_converse(k + 1, s, k / s + 1, 0);
        }
    }
    if x + 1 < sw {
        (y, x + 1)
    } else {
        (y + 1, 0)
    }
}

impl Nlm {
    /// All sums stand at a pixel.
    spec fn standing(self, s: Sums, i: int, j: int) -> bool {
        &&& s.shaped(self)
        &&& forall|k: int| 0 <= k < self.places() ==> #[trigger] s.stand_at(self, i, j, k)
    }

    /// The sums of the row above are there for the columns from `from` on.
    spec fn all_above(self, s: Sums, i: int, from: int) -> bool {
        forall|k: int| 0 <= k < self.places() ==> #[trigger] s.above(self, i, from, k)
    }

    /// One more place in the sums of weights and samples.
    proof fn lemma_sum_step(self, i: int, j: int, ch: int, k: int)
        requires
            self.inv(),
            0 <= ch < 3,
            0 <= k < self.places(),
        ensures
            0 <= self.weight(i, j, k, ch) <= i32::MAX,
            self.weight(i, j, k, ch) * 0xffff * self.places() <= i64::MAX,
            self.weight_sum(i, j, ch, (k + 1) as nat) == self.weight_sum(i, j, ch, k as nat)
                + self.weight(i, j, k, ch),
            self.estimate_sum(i, j, ch, (k + 1) as nat) == self.estimate_sum(i, j, ch, k as nat)
                + self.weight(i, j, k, ch) * self.place_sample(i, j, k, ch),
            0 <= self.weight(i, j, k, ch) * self.place_sample(i, j, k, ch) <= 0xffff
                * self.weight(i, j, k, ch),
    {
        self.lemma_cols_bound(i, j, k, self.tw() as nat);
        let d = self.patch_dist(i, j, k) / self.bin;
        assert(0 <= d) by (nonlinear_arith)
            requires
                0 <= self.patch_dist(i, j, k),
                0 < self.bin,
                d == self.patch_dist(i, j, k) / self.bin,
        ;
        let e = if d < self.lut.len() {
            d
        } else {
            self.lut.len() - 1
        };
        assert(self.lut[e]@[ch] >= 0);
        let (w, v) = (self.weight(i, j, k, ch), self.place_sample(i, j, k, ch));
        assert(0 <= w * v <= 0xffff * w) by (nonlinear_arith)
            requires
                0 <= w,
                0 <= v <= 0xffff,
        ;
    }
}

impl Nlm {
    /// The weights of `n` places take no more than their share of 64 bits.
    proof fn lemma_weights_fit(self, i: int, j: int, ch: int, n: nat)
        requires
            self.inv(),
            0 <= ch < 3,
            n <= self.places(),
        ensures
            0 <= self.weight_sum(i, j, ch, n),
            self.weight_sum(i, j, ch, n) * 0xffff * self.places() <= n * i64::MAX,
        decreases n,
    {
        let p = self.places();
        if n == 0 {
            assert(0 * 0xffff * p == 0) by (nonlinear_arith);
        } else {
            self.lemma_weights_fit(i, j, ch, (n - 1) as nat);
            self.lemma_sum_step(i, j, ch, n - 1);
            let (s, w) = (self.weight_sum(i, j, ch, (n - 1) as nat), self.weight(i, j, n - 1, ch));
            assert((s + w) * 0xffff * p == s * 0xffff * p + w * 0xffff * p) by (nonlinear_arith);
        }
    }

    /// The sum of the weights, each times the largest sample, has 64 bits.
    proof fn lemma_sums_fit(self, i: int, j: int, ch: int, n: nat)
        requires
            self.inv(),
            0 <= ch < 3,
            n <= self.places(),
        ensures
            0 <= self.weight_sum(i, j, ch, n) * 0xffff <= i64::MAX,
    {
        self.lemma_sizes();
        self.lemma_weights_fit(i, j, ch, n);
        let (p, a, m) = (
            self.places(),
            self.weight_sum(i, j, ch, n) * 0xffff,
            i64::MAX as int,
        );
        assert(a <= m) by (nonlinear_arith)
            requires
                a * p <= n * m,
                n <= p,
                0 < p,
                0 < m,
        ;
    }
}

impl<'a> NlmCtx<'a> {
    /// Sets the sums at the beginning of a row.
    fn begin_row(&self, s: &mut Sums, i: usize, above: bool)
        requires
            self@.inv(),
            old(s).shaped(self@),
            i < self.rows,
            above ==> self@.all_above(*old(s), i as int, 1),
        ensures
            self@.standing(*final(s), i as int, 0),
            above ==> self@.all_above(*final(s), i as int, 1),
    {
        proof {
            self@.lemma_sizes();
            vstd::arithmetic::div_mod::lemma_small_mod(0, self@.sw() as nat);
            vstd::arithmetic::div_mod::lemma_div_basics(self@.sw());
        }
        let sw: usize = 2 * self.sr + 1;
        let n: usize = sw * sw;
        let (mut y, mut x): (usize, usize) = (0, 0);
        let mut k: usize = 0;
        while k < n
            invariant
                self@.inv(),
                s.shaped(self@),
                i < self.rows,
                sw == self@.sw(),
                n == self@.places(),
                n <= usize::MAX,
                k <= n,
                y == k as int / self@.sw(),
                x == k as int % self@.sw(),
                forall|l: int| 0 <= l < k ==> #[trigger] s.stand_at(self@, i as int, 0, l),
                above ==> forall|l: int|
                    0 <= l < n ==> #[trigger] s.above(self@, i as int, 1, l),
            decreases n - k,
        {
            let ghost before = *s;
            self.begin_place(s, i, y, x, n, k);
            proof {
                assert forall|l: int| 0 <= l < k implies #[trigger] s.stand_at(
                    self@,
                    i as int,
                    0,
                    l,
                ) by {
                    assert(s.same_at(before, self@, l));
                    assert(before.stand_at(self@, i as int, 0, l));
                    s.lemma_same(before, self@, i as int, 0, l);
                }
                if above {
                    assert forall|l: int| 0 <= l < n implies #[trigger] s.above(
                        self@,
                        i as int,
                        1,
                        l,
                    ) by {
                        assert(before.above(self@, i as int, 1, l));
                        if l != k {
                            assert(s.same_at(before, self@, l));
                            s.lemma_same(before, self@, i as int, 0, l);
                        }
                    }
                }
            }
            let next: (usize, usize) = next_place(y, x, sw, Ghost(k as int));
            y = next.0;
            x = next.1;
            k = k + 1;
        }
    }

    /// Moves the sums one pixel to the right.
    fn move_right(&self, s: &mut Sums, i: usize, j: usize, slot: usize, above: bool)
        requires
            self@.inv(),
            self@.standing(*old(s), i as int, j - 1),
            i < self.rows,
            0 < j < self.cols,
            slot == (j - 1) % self@.tw(),
            above ==> i > 0 && self@.all_above(*old(s), i as int, j as int),
        ensures
            self@.standing(*final(s), i as int, j as int),
            above ==> self@.all_above(*final(s), i as int, j + 1),
    {
        proof {
            self@.lemma_sizes();
            vstd::arithmetic::div_mod::lemma_small_mod(0, self@.sw() as nat);
            vstd::arithmetic::div_mod::lemma_div_basics(self@.sw());
        }
        let sw: usize = 2 * self.sr + 1;
        let n: usize = sw * sw;
        let (mut y, mut x): (usize, usize) = (0, 0);
        let mut k: usize = 0;
        while k < n
            invariant
                self@.inv(),
                s.shaped(self@),
                i < self.rows,
                0 < j < self.cols,
                slot == (j - 1) % self@.tw(),
                above ==> i > 0,
                sw == self@.sw(),
                n == self@.places(),
                n <= usize::MAX,
                k <= n,
                y == k as int / self@.sw(),
                x == k as int % self@.sw(),
                forall|l: int| 0 <= l < k ==> #[trigger] s.stand_at(self@, i as int, j as int, l),
                forall|l: int| k <= l < n ==> #[trigger] s.stand_at(self@, i as int, j - 1, l),
                above ==> forall|l: int|
                    0 <= l < k ==> #[trigger] s.above(self@, i as int, j + 1, l),
                above ==> forall|l: int|
                    k <= l < n ==> #[trigger] s.above(self@, i as int, j as int, l),
            decreases n - k,
        {
            let ghost before = *s;
            assert(before.stand_at(self@, i as int, j - 1, k as int));
            assert(above ==> before.above(self@, i as int, j as int, k as int));
            self.move_place(s, i, j, slot, above, y, x, n, k);
            proof {
                assert forall|l: int| 0 <= l < k implies #[trigger] s.stand_at(
                    self@,
                    i as int,
                    j as int,
                    l,
                ) by {
                    assert(s.same_at(before, self@, l));
                    assert(before.stand_at(self@, i as int, j as int, l));
                    s.lemma_same(before, self@, i as int, j as int, l);
                }
                assert forall|l: int| k + 1 <= l < n implies #[trigger] s.stand_at(
                    self@,
                    i as int,
                    j - 1,
                    l,
                ) by {
                    assert(s.same_at(before, self@, l));
                    assert(before.stand_at(self@, i as int, j - 1, l));
                    s.lemma_same(before, self@, i as int, j - 1, l);
                }
                if above {
                    assert forall|l: int| 0 <= l < k + 1 implies #[trigger] s.above(
                        self@,
                        i as int,
                        j + 1,
                        l,
                    ) by {
                        if l != k {
                            assert(before.above(self@, i as int, j + 1, l));
                            assert(s.same_at(before, self@, l));
                            s.lemma_same(before, self@, i as int, j as int, l);
                        }
                    }
                    assert forall|l: int| k + 1 <= l < n implies #[trigger] s.above(
                        self@,
                        i as int,
                        j as int,
                        l,
                    ) by {
                        assert(before.above(self@, i as int, j as int, l));
                        assert(s.same_at(before, self@, l));
                        s.lemma_same(before, self@, i as int, j as int, l);
                    }
                }
            }
            let next: (usize, usize) = next_place(y, x, sw, Ghost(k as int));
            y = next.0;
            x = next.1;
            k = k + 1;
        }
    }

    /// The weighted mean of a channel around a pixel whose sums are known.
    fn mean_at(&self, s: &Sums, i: usize, j: usize, ch: usize) -> (v: u16)
        requires
            self@.inv(),
            self@.standing(*s, i as int, j as int),
            i < self.rows,
            j < self.cols,
            ch < 3,
        ensures
            v == self@.denoised(i as int, j as int, ch as int),
    {
        let ghost (ii, jj, c) = (i as int, j as int, ch as int);
        proof {
            self@.lemma_sizes();
            self@.lemma_small();
            vstd::arithmetic::div_mod::lemma_small_mod(0, self@.sw() as nat);
            vstd::arithmetic::div_mod::lemma_div_basics(self@.sw());
        }
        let sw: usize = 2 * self.sr + 1;
        let n: usize = sw * sw;
        let last: usize = self.lut.len() - 1;
        let (mut y, mut x): (usize, usize) = (0, 0);
        let mut k: usize = 0;
        let mut sum: u64 = 0;
        let mut weights: u64 = 0;
        while k < n
            invariant
                self@.inv(),
                self@.standing(*s, ii, jj),
                i < self.rows,
                j < self.cols,
                ch < 3,
                (ii, jj, c) == (i as int, j as int, ch as int),
                sw == self@.sw(),
                n == self@.places(),
                n <= usize::MAX,
                k <= n,
                y == k as int / self@.sw(),
                x == k as int % self@.sw(),
                last == self.lut@.len() - 1,
                self@.ext_rows() < usize::MAX,
                weights == self@.weight_sum(ii, jj, c, k as nat),
                sum == self@.estimate_sum(ii, jj, c, k as nat),
                sum <= 0xffff * weights,
            decreases n - k,
        {
            proof {
                self@.lemma_place(k as int);
                self@.lemma_sample(self.tr + i + y, self.tr + j + x, c);
                self@.lemma_sum_step(ii, jj, c, k as int);
                self@.lemma_sums_fit(ii, jj, c, k as nat);
                self@.lemma_sums_fit(ii, jj, c, (k + 1) as nat);
                self@.lemma_cols_bound(ii, jj, k as int, self@.tw() as nat);
                assert(s.stand_at(self@, ii, jj, k as int));
            }
            let bin: i32 = s.dist[k] / self.bin;
            proof {
                let (a, b) = (s.dist@[k as int] as int, self.bin as int);
                assert(0 <= a / b <= a) by (nonlinear_arith)
                    requires
                        0 <= a,
                        0 < b,
                ;
            }
            let d: usize = if (bin as usize) < self.lut.len() {
                bin as usize
            } else {
                last
            };
            let w: u64 = self.lut[d][ch] as u64;
            let p: usize = ((self.tr + i + y) * self.ext_cols + (self.tr + j + x)) * 3 + ch;
            let v: u64 = self.ext[p] as u64;
            assert(w == self@.weight(ii, jj, k as int, c));
            assert(v == self@.place_sample(ii, jj, k as int, c));
            weights = weights + w;
            sum = sum + w * v;
            let next: (usize, usize) = next_place(y, x, sw, Ghost(k as int));
            y = next.0;
            x = next.1;
            k = k + 1;
        }
        if weights > 0 {
            proof {
                self@.lemma_sums_fit(ii, jj, c, n as nat);
                let (a, b) = (sum as int, weights as int);
                assert(0 <= (a + b / 2) / b <= 0xffff) by (nonlinear_arith)
                    requires
                        0 <= a <= 0xffff * b,
                        0 < b,
                        0 <= b / 2 < b,
                ;
            }
            ((sum + weights / 2) / weights) as u16
        } else {
            0
        }
    }

    /// The rows from `from` to `to` of the denoised image. What rows are
    /// denoised together does not matter.
    pub fn process_rows(&self, from: usize, to: usize) -> (out: Vec<u16>)
        requires
            self@.inv(),
            from <= to <= self.rows,
        ensures
            out@ == self@.band(from as int, to as int),
    {
        proof {
            self@.lemma_sizes();
            self@.lemma_small();
        }
        let sw: usize = 2 * self.sr + 1;
        let n: usize = sw * sw;
        let tw: usize = 2 * self.tr + 1;
        let mut s: Sums = Sums {
            dist: vec![0i32; n],
            col: vec![0i32; tw * n],
            up: vec![0i32; self.cols * n],
        };
        let mut out: Vec<u16> = Vec::new();
        let mut i: usize = from;
        let ghost all = self@.band(from as int, to as int);
        assert((from - from) * self.cols * 3 == 0) by (nonlinear_arith);
        while i < to
            invariant
                self@.inv(),
                from <= i <= to <= self.rows,
                s.shaped(self@),
                tw == self@.tw(),
                tw <= 103,
                i > from ==> self@.all_above(s, i as int, 0),
                all == self@.band(from as int, to as int),
                out@.len() == (i - from) * self.cols * 3,
                forall|m: int| 0 <= m < out@.len() ==> #[trigger] out@[m] == all[m],
            decreases to - i,
        {
            let above: bool = i > from;
            proof {
                if above {
                    assert forall|k: int| 0 <= k < self@.places() implies #[trigger] s.above(
                        self@,
                        i as int,
                        1,
                        k,
                    ) by {
                        assert(s.above(self@, i as int, 0, k));
                    }
                }
            }
            self.begin_row(&mut s, i, above);
            let mut slot: usize = 0;
            let mut j: usize = 0;
            while j < self.cols
                invariant
                    self@.inv(),
                    from <= i < to <= self.rows,
                    j <= self.cols,
                    tw == self@.tw(),
                    tw <= 103,
                    s.shaped(self@),
                    above == (i > from),
                    slot == (if j == 0 {
                        0
                    } else {
                        (j - 1) % self@.tw()
                    }),
                    self@.standing(
                        s,
                        i as int,
                        if j == 0 {
                            0
                        } else {
                            j - 1
                        },
                    ),
                    above ==> self@.all_above(
                        s,
                        i as int,
                        if j == 0 {
                            1
                        } else {
                            j as int
                        },
                    ),
                    all == self@.band(from as int, to as int),
                    out@.len() == ((i - from) * self.cols + j) * 3,
                    forall|m: int| 0 <= m < out@.len() ==> #[trigger] out@[m] == all[m],
                decreases self.cols - j,
            {
                if j > 0 {
                    self.move_right(&mut s, i, j, slot, above);
                    proof {
                        lemma_mod_bound(j - 1, self@.tw());
                        lemma_slot_step(j - 1, self@.tw());
                    }
                    slot = if slot + 1 < tw {
                        slot + 1
                    } else {
                        0
                    };
                }
                proof {
                    vstd::arithmetic::div_mod::lemma_small_mod(0, self@.tw() as nat);
                    lemma_pixel(i - from, j as int, to - from, self.cols as int);
                }
                let v0: u16 = self.mean_at(&s, i, j, 0);
                out.push(v0);
                let v1: u16 = self.mean_at(&s, i, j, 1);
                out.push(v1);
                let v2: u16 = self.mean_at(&s, i, j, 2);
                out.push(v2);
                j = j + 1;
            }
            proof {
                let c = self.cols as int;
                assert(((i - from) * c + c) * 3 == (i + 1 - from) * c * 3) by (nonlinear_arith);
                assert forall|k: int| 0 <= k < self@.places() implies #[trigger] s.above(
                    self@,
                    i + 1,
                    0,
                    k,
                ) by {
                    assert(s.stand_at(self@, i as int, c - 1, k));
                }
            }
            i = i + 1;
        }
        assert(out@ =~= all);
        out
    }
}

/// The next slot of a ring.
proof fn lemma_slot_step(a: int, t: int)
    requires
        0 <= a,
        0 < t,
    ensures
        (a + 1) % t == (if a % t + 1 < t {
            a % t + 1
        } else {
            0
        }),
{
    vstd::arithmetic::div_mod::lemma_fundamental_div_mod(a, t);
    lemma_mod_bound(a, t);
    let q = a / t;
    assert(t * q == q * t) by (nonlinear_arith);
    if a % t + 1 < t {
        lemma_fundamental_div_mod_converse(a + 1, t, q, a % t + 1);
    } else {
        assert((q + 1) * t == q * t + t) by (nonlinear_arith);
        lemma_fundamental_div_mod_converse(a + 1, t, q + 1, 0);
    }
}

/// The samples of a pixel in a packed image of three channels.
proof fn lemma_pixel(row: int, column: int, rows: int, columns: int)
    requires
        0 <= row < rows,
        0 <= column < columns,
    ensures
        ({
            let m = (row * columns + column) * 3;
            &&& 0 <= m
            &&& m + 2 < rows * columns * 3
            &&& m / 3 == (m + 1) / 3 == (m + 2) / 3 == row * columns + column
            &&& m % 3 == 0
            &&& (m + 1) % 3 == 1
            &&& (m + 2) % 3 == 2
            &&& (row * columns + column) / columns == row
            &&& (row * columns + column) % columns == column
        }),
{
    lemma_cell(row, column, rows, columns);
}

impl Nlm {
    /// The difference of two neighbourhoods, computed at the beginning of a row
    /// and moved `j` pixels to the right: each time the column on the left is
    /// taken away and the one on the right is added.
    pub open spec fn slid_patch(self, i: int, j: nat, k: int) -> int
        decreases j,
    {
        if j == 0 {
            self.patch_dist(i, 0, k)
        } else {
            self.slid_patch(i, (j - 1) as nat, k) - self.column(i, j - 1, k) + self.column(
                i,
                j - 1 + self.tw(),
                k,
            )
        }
    }

    /// The distances in a column of a neighbourhood, computed in row `i` and moved
    /// `n` pixels down: each time the distance at the top is taken away and the
    /// one at the bottom is added.
    pub open spec fn slid_column(self, i: int, n: nat, q: int, k: int) -> int
        decreases n,
    {
        if n == 0 {
            self.column(i, q, k)
        } else {
            self.slid_column(i, (n - 1) as nat, q, k) - self.place_dist(i + n - 1, q, k)
                + self.place_dist(i + n - 1 + self.tw(), q, k)
        }
    }
}

/// Sums that slide to the right are the sums that would be computed afresh.
pub proof fn law_sliding_right_equals_recomputing(nlm: Nlm, i: int, j: nat, k: int)
    requires
        nlm.inv(),
    ensures
        nlm.slid_patch(i, j, k) == nlm.patch_dist(i, j as int, k),
    decreases j,
{
    if j > 0 {
        law_sliding_right_equals_recomputing(nlm, i, (j - 1) as nat, k);
        nlm.lemma_next_column(i, j as int, k, nlm.tw() as nat);
    }
}

/// Sums that slide down are the sums that would be computed afresh.
pub proof fn law_sliding_down_equals_recomputing(nlm: Nlm, i: int, n: nat, q: int, k: int)
    requires
        nlm.inv(),
    ensures
        nlm.slid_column(i, n, q, k) == nlm.column(i + n, q, k),
    decreases n,
{
    if n > 0 {
        law_sliding_down_equals_recomputing(nlm, i, (n - 1) as nat, q, k);
        nlm.lemma_next_row(i + n, q, k, nlm.tw() as nat);
    }
}

/// Denoising an image in bands of rows gives the same as denoising it at once.
pub proof fn law_bands_make_the_image(nlm: Nlm, a: int, b: int, c: int)
    requires
        a <= b <= c,
        nlm.cols > 0,
    ensures
        nlm.band(a, c) == nlm.band(a, b) + nlm.band(b, c),
{
    let w = nlm.cols;
    assert((c - a) * w * 3 == (b - a) * w * 3 + (c - b) * w * 3) by (nonlinear_arith);
    assert((b - a) * w * 3 >= 0 && (c - b) * w * 3 >= 0) by (nonlinear_arith)
        requires
            a <= b <= c,
            w > 0,
    ;
    let l = (b - a) * w * 3;
    assert forall|n: int| l <= n < (c - a) * w * 3 implies nlm.band(a, c)[n] == nlm.band(
        b,
        c,
    )[n - l] by {
        let m = n / 3;
        let m2 = (n - l) / 3;
        assert(m2 == m - (b - a) * w && (n - l) % 3 == n % 3);
        vstd::arithmetic::div_mod::lemma_fundamental_div_mod(m2, w);
        lemma_mod_bound(m2, w);
        let (q, r) = (m2 / w, m2 % w);
        assert(m == (q + (b - a)) * w + r) by (nonlinear_arith)
            requires
                m2 == w * q + r,
                m2 == m - (b - a) * w,
        ;
        lemma_fundamental_div_mod_converse(m, w, q + (b - a), r);
    }
    assert(nlm.band(a, c) =~= nlm.band(a, b) + nlm.band(b, c));
}

impl Nlm {
    /// Every pixel of the extended image is the same.
    pub open spec fn is_flat(self, pixel: Seq<u16>) -> bool {
        forall|y: int, x: int, ch: int|
            0 <= y < self.ext_rows() && 0 <= x < self.ext_cols && 0 <= ch < 3 ==> #[trigger] self.sample(
            y, x, ch) == pixel[ch]
    }

    proof fn lemma_flat_column(self, pixel: Seq<u16>, i: int, q: int, k: int, n: nat)
        requires
            self.inv(),
            self.is_flat(pixel),
            0 <= i,
            i + n <= self.rows + 2 * self.tr,
            0 <= q < self.cols + 2 * self.tr,
            0 <= k < self.places(),
        ensures
            self.col_dist(i, q, k, n) == 0,
        decreases n,
    {
        if n > 0 {
            self.lemma_flat_column(pixel, i, q, k, (n - 1) as nat);
            self.lemma_place(k);
            let p = i + n - 1;
            let (y2, x2) = (p + k / self.sw(), q + k % self.sw());
            assert forall|ch: int| 0 <= ch < 3 implies #[trigger] self.sample(
                self.sr + p,
                self.sr + q,
                ch,
            ) == self.sample(y2, x2, ch) by {}
            assert(self.place_dist(p, q, k) == 0);
        }
    }

    proof fn lemma_flat_patch(self, pixel: Seq<u16>, i: int, j: int, k: int, n: nat)
        requires
            self.inv(),
            self.is_flat(pixel),
            0 <= i < self.rows,
            0 <= j < self.cols,
            n <= self.tw(),
            0 <= k < self.places(),
        ensures
            self.cols_dist(i, j, k, n) == 0,
        decreases n,
    {
        if n > 0 {
            self.lemma_flat_patch(pixel, i, j, k, (n - 1) as nat);
            self.lemma_flat_column(pixel, i, j + n - 1, k, self.tw() as nat);
        }
    }

    proof fn lemma_flat_sums(self, pixel: Seq<u16>, i: int, j: int, ch: int, n: nat)
        requires
            self.inv(),
            self.is_flat(pixel),
            0 <= i < self.rows,
            0 <= j < self.cols,
            0 <= ch < 3,
            n <= self.places(),
        ensures
            self.weight_sum(i, j, ch, n) == n * self.lut[0]@[ch],
            self.estimate_sum(i, j, ch, n) == (n * self.lut[0]@[ch]) * pixel[ch],
        decreases n,
    {
        let (w, v) = (self.lut[0]@[ch] as int, pixel[ch] as int);
        if n == 0 {
            assert(0 * w == 0 && (0 * w) * v == 0) by (nonlinear_arith);
        } else {
            let k = n - 1;
            self.lemma_flat_sums(pixel, i, j, ch, k as nat);
            self.lemma_flat_patch(pixel, i, j, k, self.tw() as nat);
            self.lemma_place(k);
            vstd::arithmetic::div_mod::lemma_div_basics(self.bin);
            assert(self.weight(i, j, k, ch) == w);
            assert(self.place_sample(i, j, k, ch) == v);
            assert(n * w == k * w + w) by (nonlinear_arith)
                requires
                    n == k + 1,
            ;
            assert((n * w) * v == (k * w) * v + w * v) by (nonlinear_arith)
                requires
                    n * w == k * w + w,
            ;
        }
    }
}

/// An image without any differences stays as it is, if pixels that are alike
/// have a weight.
pub proof fn law_flat_images_stay(nlm: Nlm, pixel: Seq<u16>, i: int, j: int, ch: int)
    requires
        nlm.inv(),
        nlm.is_flat(pixel),
        0 <= i < nlm.rows,
        0 <= j < nlm.cols,
        0 <= ch < 3,
        nlm.lut[0]@[ch] > 0,
    ensures
        nlm.denoised(i, j, ch) == pixel[ch],
{
    nlm.lemma_sizes();
    let n = nlm.places();
    nlm.lemma_flat_sums(pixel, i, j, ch, n as nat);
    let w = n * nlm.lut[0]@[ch];
    let v = pixel[ch] as int;
    assert(w > 0) by (nonlinear_arith)
        requires
            n > 0,
            nlm.lut[0]@[ch] > 0,
            w == n * nlm.lut[0]@[ch],
    ;
    assert(w * v == v * w) by (nonlinear_arith);
    lemma_fundamental_div_mod_converse(w * v + w / 2, w, v, w / 2);
}

impl Nlm {
    proof fn lemma_own_column(self, i: int, q: int, k: int, n: nat)
        requires
            self.inv(),
            k == self.sr * self.sw() + self.sr,
        ensures
            self.col_dist(i, q, k, n) == 0,
        decreases n,
    {
        if n > 0 {
            self.lemma_own_column(i, q, k, (n - 1) as nat);
            lemma_fundamental_div_mod_converse(k, self.sw(), self.sr, self.sr);
        }
    }

    /// A neighbourhood does not differ from itself.
    proof fn lemma_own_patch(self, i: int, j: int, k: int, n: nat)
        requires
            self.inv(),
            k == self.sr * self.sw() + self.sr,
        ensures
            self.cols_dist(i, j, k, n) == 0,
        decreases n,
    {
        if n > 0 {
            self.lemma_own_patch(i, j, k, (n - 1) as nat);
            self.lemma_own_column(i, j + n - 1, k, self.tw() as nat);
        }
    }

    pub proof fn lemma_weights_from(self, i: int, j: int, ch: int, k: int, n: nat)
        requires
            self.inv(),
            0 <= k < n,
            0 <= ch < 3,
        ensures
            self.weight_sum(i, j, ch, n) >= self.weight(i, j, k, ch),
            self.weight_sum(i, j, ch, n) >= 0,
        decreases n,
    {
        self.lemma_weight_is_positive(i, j, n - 1, ch);
        if k < n - 1 {
            self.lemma_weights_from(i, j, ch, k, (n - 1) as nat);
        } else if n > 1 {
            self.lemma_weights_from(i, j, ch, 0, (n - 1) as nat);
        }
    }

    proof fn lemma_weight_is_positive(self, i: int, j: int, k: int, ch: int)
        requires
            self.inv(),
            0 <= ch < 3,
        ensures
            self.weight(i, j, k, ch) >= 0,
    {
        self.lemma_cols_bound(i, j, k, self.tw() as nat);
        let d = self.patch_dist(i, j, k) / self.bin;
        assert(d >= 0) by (nonlinear_arith)
            requires
                self.patch_dist(i, j, k) >= 0,
                self.bin > 0,
                d == self.patch_dist(i, j, k) / self.bin,
        ;
    }

    proof fn lemma_sums_between(self, i: int, j: int, ch: int, low: int, high: int, n: nat)
        requires
            self.inv(),
            0 <= ch < 3,
            n <= self.places(),
            forall|k: int|
                0 <= k < self.places() ==> low <= #[trigger] self.place_sample(i, j, k, ch) <= high,
        ensures
            self.weight_sum(i, j, ch, n) * low <= self.estimate_sum(i, j, ch, n)
                <= self.weight_sum(i, j, ch, n) * high,
        decreases n,
    {
        if n > 0 {
            self.lemma_sums_between(i, j, ch, low, high, (n - 1) as nat);
            self.lemma_weight_is_positive(i, j, n - 1, ch);
            let (s, w, v) = (
                self.weight_sum(i, j, ch, (n - 1) as nat),
                self.weight(i, j, n - 1, ch),
                self.place_sample(i, j, n - 1, ch),
            );
            assert(w * low <= w * v <= w * high) by (nonlinear_arith)
                requires
                    0 <= w,
                    low <= v <= high,
            ;
            assert((s + w) * low == s * low + w * low) by (nonlinear_arith);
            assert((s + w) * high == s * high + w * high) by (nonlinear_arith);
        }
    }
}

/// A pixel always matches itself: if pixels that are alike have a weight, the
/// weights of no pixel add up to nothing.
pub proof fn law_a_pixel_matches_itself(nlm: Nlm, i: int, j: int, ch: int)
    requires
        nlm.inv(),
        0 <= i < nlm.rows,
        0 <= j < nlm.cols,
        0 <= ch < 3,
        nlm.lut[0]@[ch] > 0,
    ensures
        nlm.weight_sum(i, j, ch, nlm.places() as nat) > 0,
{
    let k = nlm.sr * nlm.sw() + nlm.sr;
    let (sr, sw) = (nlm.sr, nlm.sw());
    assert(0 <= k < sw * sw) by (nonlinear_arith)
        requires
            k == sr * sw + sr,
            sw == 2 * sr + 1,
            0 <= sr,
    ;
    nlm.lemma_own_patch(i, j, k, nlm.tw() as nat);
    vstd::arithmetic::div_mod::lemma_div_basics(nlm.bin);
    assert(nlm.weight(i, j, k, ch) == nlm.lut[0]@[ch]);
    nlm.lemma_weights_from(i, j, ch, k, nlm.places() as nat);
}

/// A denoised sample is neither below nor above all samples of the window that
/// is searched, if pixels that are alike have a weight.
pub proof fn law_denoised_samples_lie_between(
    nlm: Nlm,
    i: int,
    j: int,
    ch: int,
    low: int,
    high: int,
)
    requires
        nlm.inv(),
        0 <= i < nlm.rows,
        0 <= j < nlm.cols,
        0 <= ch < 3,
        0 <= low <= high <= 0xffff,
        nlm.lut[0]@[ch] > 0,
        forall|k: int|
            0 <= k < nlm.places() ==> low <= #[trigger] nlm.place_sample(i, j, k, ch) <= high,
    ensures
        low <= nlm.denoised(i, j, ch) <= high,
{
    nlm.lemma_sizes();
    law_a_pixel_matches_itself(nlm, i, j, ch);
    let n = nlm.places() as nat;
    nlm.lemma_sums_between(i, j, ch, low, high, n);
    let (w, e) = (nlm.weight_sum(i, j, ch, n), nlm.estimate_sum(i, j, ch, n));
    let q = (e + w / 2) / w;
    assert(low <= q <= high) by (nonlinear_arith)
        requires
            w > 0,
            w * low <= e <= w * high,
            q == (e + w / 2) / w,
    ;
}

/// The distance of two pixels adds up what they differ by in their three channels:
/// only pixels that are equal in all three have none, and pixels that differ in one
/// channel have the difference in that channel. It is the same both ways.
pub proof fn law_only_equal_pixels_have_no_distance(
    nlm: Nlm,
    y1: int,
    x1: int,
    y2: int,
    x2: int,
    ch: int,
)
    requires
        0 <= ch < 3,
    ensures
        nlm.dist_of(y1, x1, y2, x2) == 0 <==> (forall|c: int|
            0 <= c < 3 ==> #[trigger] nlm.sample(y1, x1, c) == nlm.sample(y2, x2, c)),
        (forall|c: int|
            0 <= c < 3 && c != ch ==> #[trigger] nlm.sample(y1, x1, c) == nlm.sample(y2, x2, c))
            ==> nlm.dist_of(y1, x1, y2, x2) == (if nlm.sample(y1, x1, ch) < nlm.sample(y2, x2, ch) {
            nlm.sample(y2, x2, ch) - nlm.sample(y1, x1, ch)
        } else {
            nlm.sample(y1, x1, ch) - nlm.sample(y2, x2, ch)
        }),
        nlm.dist_of(y1, x1, y2, x2) == nlm.dist_of(y2, x2, y1, x1),
        nlm.dist_of(y1, x1, y2, x2) >= 0,
{
    let a = (nlm.sample(y1, x1, 0), nlm.sample(y1, x1, 1), nlm.sample(y1, x1, 2));
    let b = (nlm.sample(y2, x2, 0), nlm.sample(y2, x2, 1), nlm.sample(y2, x2, 2));
}

impl Nlm {
    /// A column of a neighbourhood that differs in one pixel at most.
    proof fn lemma_column_but_one(self, i: int, q: int, k: int, n: nat, p: int)
        requires
            forall|r: int|
                i <= r < i + n && r != p ==> #[trigger] self.place_dist(r, q, k) == 0,
        ensures
            self.col_dist(i, q, k, n) == (if i <= p < i + n {
                self.place_dist(p, q, k)
            } else {
                0
            }),
        decreases n,
    {
        if n > 0 {
            self.lemma_column_but_one(i, q, k, (n - 1) as nat, p);
            let d = self.place_dist(i + n - 1, q, k);
        }
    }

    /// A neighbourhood that differs in one column at most.
    proof fn lemma_patch_but_one(self, i: int, j: int, k: int, n: nat, q: int)
        requires
            forall|c: int| j <= c < j + n && c != q ==> #[trigger] self.column(i, c, k) == 0,
        ensures
            self.cols_dist(i, j, k, n) == (if j <= q < j + n {
                self.column(i, q, k)
            } else {
                0
            }),
        decreases n,
    {
        if n > 0 {
            self.lemma_patch_but_one(i, j, k, (n - 1) as nat, q);
            let d = self.column(i, j + n - 1, k);
        }
    }

    /// A column differs by no less than each of its pixels.
    proof fn lemma_column_from(self, i: int, q: int, k: int, n: nat, p: int)
        requires
            i <= p < i + n,
        ensures
            self.col_dist(i, q, k, n) >= self.place_dist(p, q, k),
        decreases n,
    {
        if p < i + n - 1 {
            self.lemma_column_from(i, q, k, (n - 1) as nat, p);
        } else {
            self.lemma_col_bound(i, q, k, (n - 1) as nat);
        }
    }

    /// A neighbourhood differs by no less than each of its columns.
    proof fn lemma_patch_from(self, i: int, j: int, k: int, n: nat, q: int)
        requires
            0 <= self.tr <= 51,
            j <= q < j + n,
        ensures
            self.cols_dist(i, j, k, n) >= self.column(i, q, k),
        decreases n,
    {
        if q < j + n - 1 {
            self.lemma_patch_from(i, j, k, (n - 1) as nat, q);
            self.lemma_col_bound(i, j + n - 1, k, self.tw() as nat);
        } else {
            self.lemma_cols_bound(i, j, k, (n - 1) as nat);
        }
    }

    /// A neighbourhood differs by no less than each of its samples.
    pub proof fn lemma_samples_count(self, i: int, j: int, k: int, p: int, q: int, ch: int)
        requires
            0 <= self.tr <= 51,
            i <= p < i + self.tw(),
            j <= q < j + self.tw(),
            0 <= ch < 3,
        ensures
            self.patch_dist(i, j, k) >= gap(
                self.sample(self.sr + p, self.sr + q, ch),
                self.sample(p + k / self.sw(), q + k % self.sw(), ch),
            ),
    {
        self.lemma_patch_from(i, j, k, self.tw() as nat, q);
        self.lemma_column_from(i, q, k, self.tw() as nat, p);
    }

    /// Samples that all equal `v`, where they have a weight, have `v` as their mean.
    pub proof fn lemma_one_value(self, i: int, j: int, ch: int, v: int, n: nat)
        requires
            n <= self.places(),
            forall|k: int|
                0 <= k < self.places() ==> #[trigger] self.place_sample(i, j, k, ch) == v
                    || self.weight(i, j, k, ch) == 0,
        ensures
            self.estimate_sum(i, j, ch, n) == self.weight_sum(i, j, ch, n) * v,
        decreases n,
    {
        if n == 0 {
            assert(0 * v == 0) by (nonlinear_arith);
        } else {
            self.lemma_one_value(i, j, ch, v, (n - 1) as nat);
            let (s, w, p) = (
                self.weight_sum(i, j, ch, (n - 1) as nat),
                self.weight(i, j, n - 1, ch),
                self.place_sample(i, j, n - 1, ch),
            );
            assert((s + w) * v == s * v + w * v) by (nonlinear_arith);
            assert(w * p == w * v) by (nonlinear_arith)
                requires
                    p == v || w == 0,
            ;
        }
    }
}

/// Every sample of a neighbourhood counts, and each counts once: where the
/// neighbourhoods of a pixel and of one in the window around it are equal but for
/// one sample, they differ by what that sample differs by.
pub proof fn law_every_sample_of_a_neighbourhood_counts_once(
    nlm: Nlm,
    i: int,
    j: int,
    k: int,
    p: int,
    q: int,
    ch: int,
)
    requires
        0 <= nlm.tr,
        i <= p <= i + 2 * nlm.tr,
        j <= q <= j + 2 * nlm.tr,
        0 <= ch < 3,
        ({
            let sw = 2 * nlm.sr + 1;
            forall|r: int, s: int, c: int|
                i <= r <= i + 2 * nlm.tr && j <= s <= j + 2 * nlm.tr && 0 <= c < 3 && !(r == p && s
                    == q && c == ch) ==> #[trigger] nlm.sample(nlm.sr + r, nlm.sr + s, c)
                    == nlm.sample(r + k / sw, s + k % sw, c)
        }),
    ensures
        ({
            let sw = 2 * nlm.sr + 1;
            let here = nlm.sample(nlm.sr + p, nlm.sr + q, ch);
            let there = nlm.sample(p + k / sw, q + k % sw, ch);
            nlm.patch_dist(i, j, k) == (if here < there {
                there - here
            } else {
                here - there
            })
        }),
{
    assert forall|r: int, s: int|
        i <= r <= i + 2 * nlm.tr && j <= s <= j + 2 * nlm.tr && !(r == p && s == q) implies
        #[trigger] nlm.place_dist(r, s, k) == 0 by {
        let d0 = nlm.sample(nlm.sr + r, nlm.sr + s, 0);
        let d1 = nlm.sample(nlm.sr + r, nlm.sr + s, 1);
        let d2 = nlm.sample(nlm.sr + r, nlm.sr + s, 2);
    }
    assert forall|s: int| j <= s < j + nlm.tw() && s != q implies #[trigger] nlm.column(i, s, k)
        == 0 by {
        nlm.lemma_column_but_one(i, s, k, nlm.tw() as nat, i - 1);
    }
    nlm.lemma_column_but_one(i, q, k, nlm.tw() as nat, p);
    nlm.lemma_patch_but_one(i, j, k, nlm.tw() as nat, q);
    let d0 = nlm.sample(nlm.sr + p, nlm.sr + q, 0);
    let d1 = nlm.sample(nlm.sr + p, nlm.sr + q, 1);
    let d2 = nlm.sample(nlm.sr + p, nlm.sr + q, 2);
}

impl Nlm {
    /// A neighbourhood of one pixel differs as the pixel does.
    pub proof fn lemma_single_pixel(self, i: int, j: int, k: int)
        requires
            self.tr == 0,
        ensures
            self.patch_dist(i, j, k) == self.dist_of(
                self.sr + i,
                self.sr + j,
                i + k / self.sw(),
                j + k % self.sw(),
            ),
    {
        reveal_with_fuel(Nlm::cols_dist, 2);
        reveal_with_fuel(Nlm::col_dist, 2);
    }

    /// The mean of samples is a sample.
    pub proof fn lemma_mean_fits(self, i: int, j: int, ch: int)
        requires
            self.inv(),
            0 <= ch < 3,
            self.weight_sum(i, j, ch, self.places() as nat) > 0,
        ensures
            ({
                let n = self.places() as nat;
                let w = self.weight_sum(i, j, ch, n);
                let s = self.estimate_sum(i, j, ch, n);
                0 <= (s + w / 2) / w <= 0xffff
            }),
    {
        self.lemma_sizes();
        let n = self.places() as nat;
        self.lemma_sums_between(i, j, ch, 0, 0xffff, n);
        let (w, e) = (self.weight_sum(i, j, ch, n), self.estimate_sum(i, j, ch, n));
        let q = (e + w / 2) / w;
        assert(0 <= q <= 0xffff) by (nonlinear_arith)
            requires
                w > 0,
                w * 0 <= e <= w * 0xffff,
                q == (e + w / 2) / w,
        ;
    }
}

impl Nlm {
    /// What a sample of a neighbourhood differs by from its counterpart at place `k`.
    pub open spec fn gap_at(self, p: int, q: int, k: int, ch: int) -> int {
        let (here, there) = (
            self.sample(self.sr + p, self.sr + q, ch),
            self.sample(p + k / (2 * self.sr + 1), q + k % (2 * self.sr + 1), ch),
        );
        if here < there {
            there - here
        } else {
            here - there
        }
    }

    proof fn lemma_columns_differ(
        self,
        other: Nlm,
        i: int,
        q: int,
        k: int,
        m: int,
        n: nat,
        p: int,
    )
        requires
            forall|r: int|
                i <= r < i + n && r != p ==> #[trigger] self.place_dist(r, q, k)
                    == other.place_dist(r, q, m),
        ensures
            self.col_dist(i, q, k, n) - other.col_dist(i, q, m, n) == (if i <= p < i + n {
                self.place_dist(p, q, k) - other.place_dist(p, q, m)
            } else {
                0
            }),
        decreases n,
    {
        if n > 0 {
            self.lemma_columns_differ(other, i, q, k, m, (n - 1) as nat, p);
            let d = self.place_dist(i + n - 1, q, k);
        }
    }

    proof fn lemma_patches_differ(
        self,
        other: Nlm,
        i: int,
        j: int,
        k: int,
        m: int,
        n: nat,
        q: int,
    )
        requires
            forall|c: int|
                j <= c < j + n && c != q ==> #[trigger] self.column(i, c, k) == other.column(
                    i,
                    c,
                    m,
                ),
        ensures
            self.cols_dist(i, j, k, n) - other.cols_dist(i, j, m, n) == (if j <= q < j + n {
                self.column(i, q, k) - other.column(i, q, m)
            } else {
                0
            }),
        decreases n,
    {
        if n > 0 {
            self.lemma_patches_differ(other, i, j, k, m, (n - 1) as nat, q);
            let d = self.column(i, j + n - 1, k);
        }
    }
}

/// The differences of two neighbourhoods add up over their samples: of two pairs of
/// neighbourhoods, in one image or in two, that differ by as much in every sample but one,
/// one pair differs by as much more as it does in that sample. So neighbourhoods differ by
/// the sum of what their samples differ by.
pub proof fn law_differences_of_samples_add_up(
    nlm: Nlm,
    other: Nlm,
    i: int,
    j: int,
    k: int,
    m: int,
    p: int,
    q: int,
    ch: int,
)
    requires
        0 <= nlm.tr,
        nlm.tr == other.tr,
        i <= p <= i + 2 * nlm.tr,
        j <= q <= j + 2 * nlm.tr,
        0 <= ch < 3,
        forall|r: int, s: int, c: int|
            i <= r <= i + 2 * nlm.tr && j <= s <= j + 2 * nlm.tr && 0 <= c < 3 && !(r == p && s == q
                && c == ch) ==> #[trigger] nlm.gap_at(r, s, k, c) == other.gap_at(r, s, m, c),
    ensures
        nlm.patch_dist(i, j, k) - other.patch_dist(i, j, m) == nlm.gap_at(p, q, k, ch)
            - other.gap_at(p, q, m, ch),
{
    assert forall|r: int, s: int|
        i <= r <= i + 2 * nlm.tr && j <= s <= j + 2 * nlm.tr implies #[trigger] nlm.place_dist(
        r,
        s,
        k,
    ) - other.place_dist(r, s, m) == (if r == p && s == q {
        nlm.gap_at(p, q, k, ch) - other.gap_at(p, q, m, ch)
    } else {
        0
    }) by {
        let (g0, g1, g2) = (
            nlm.gap_at(r, s, k, 0),
            nlm.gap_at(r, s, k, 1),
            nlm.gap_at(r, s, k, 2),
        );
        assert(nlm.place_dist(r, s, k) == g0 + g1 + g2);
        assert(other.place_dist(r, s, m) == other.gap_at(r, s, m, 0) + other.gap_at(r, s, m, 1)
            + other.gap_at(r, s, m, 2));
    }
    let n = nlm.tw() as nat;
    assert forall|s: int| j <= s < j + n && s != q implies #[trigger] nlm.column(i, s, k)
        == other.column(i, s, m) by {
        assert forall|r: int| i <= r < i + n && r != i - 1 implies #[trigger] nlm.place_dist(
            r,
            s,
            k,
        ) == other.place_dist(r, s, m) by {
            let d = nlm.place_dist(r, s, k) - other.place_dist(r, s, m);
        }
        nlm.lemma_columns_differ(other, i, s, k, m, n, i - 1);
    }
    assert forall|r: int| i <= r < i + n && r != p implies #[trigger] nlm.place_dist(r, q, k)
        == other.place_dist(r, q, m) by {
        let d = nlm.place_dist(r, q, k) - other.place_dist(r, q, m);
    }
    nlm.lemma_columns_differ(other, i, q, k, m, n, p);
    nlm.lemma_patches_differ(other, i, j, k, m, n, q);
    let d = nlm.place_dist(p, q, k) - other.place_dist(p, q, m);
}

} // verus!
