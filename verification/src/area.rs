//! Rasters of 8- and 16-bit samples, and rectangular windows into them.

use vstd::arithmetic::div_mod::{
    lemma_fundamental_div_mod, lemma_fundamental_div_mod_converse,
};
use vstd::prelude::*;

verus! {

/// Places in a table of `m` rows of `n` entries.
pub proof fn lemma_cell(a: int, k: int, m: int, n: int)
    requires
        0 <= a < m,
        0 <= k < n,
    ensures
        0 <= a * n,
        0 <= a * n + k < m * n,
        (a * n + k) / n == a,
        (a * n + k) % n == k,
{
    assert(0 <= a * n) by (nonlinear_arith)
        requires
            0 <= a,
            0 <= n,
    ;
    assert(a * n + n <= m * n) by (nonlinear_arith)
        requires
            a + 1 <= m,
            0 <= n,
    ;
    lemma_fundamental_div_mod_converse(a * n + k, n, a, k);
}

/// A rectangle of pixels inside a buffer of samples: where its first sample
/// stands, its size, the samples per pixel, and the samples from one row to
/// the next.
#[derive(Clone, Copy, Debug, PartialEq, Eq, Structural)]
pub struct Window {
    pub offset: usize,
    pub rows: u32,
    pub columns: u32,
    pub channels: u32,
    pub row_stride: u32,
}

impl Window {
    /// Rows do not overlap, and all of them lie within `len` samples.
    pub open spec fn fits(self, len: int) -> bool {
        &&& self.columns * self.channels <= self.row_stride
        &&& self.offset + self.rows * self.row_stride <= len
    }

    /// The same for a window cut out of a larger raster, whose last row may
    /// end before the stride does.
    pub open spec fn inside(self, len: int) -> bool {
        &&& self.columns * self.channels <= self.row_stride
        &&& self.rows > 0 ==> self.offset + (self.rows - 1) * self.row_stride + self.columns
            * self.channels <= len
    }

    /// Where the sample of pixel (`row`, `column`) in `channel` stands.
    pub open spec fn index(self, row: int, column: int, channel: int) -> int {
        self.offset + row * self.row_stride + column * self.channels + channel
    }

    pub open spec fn in_range(self, row: int, column: int, channel: int) -> bool {
        0 <= row < self.rows && 0 <= column < self.columns && 0 <= channel < self.channels
    }

    /// Whether sample `i` of the buffer belongs to a pixel of the window.
    pub open spec fn holds(self, i: int) -> bool {
        &&& self.offset <= i
        &&& self.row_stride > 0
        &&& self.row_of(i) < self.rows
        &&& self.within(i) < self.columns * self.channels
    }

    pub open spec fn within(self, i: int) -> int {
        (i - self.offset) % self.row_stride as int
    }

    /// The row that sample `i` belongs to.
    pub open spec fn row_of(self, i: int) -> int {
        (i - self.offset) / self.row_stride as int
    }

    /// The column that sample `i` belongs to.
    pub open spec fn column_of(self, i: int) -> int {
        self.within(i) / self.channels as int
    }

    /// The channel that sample `i` belongs to.
    pub open spec fn channel_of(self, i: int) -> int {
        self.within(i) % self.channels as int
    }

    /// The sample of a pixel lies in its row.
    pub proof fn lemma_offset_in_row(self, column: int, channel: int)
        requires
            0 <= column < self.columns,
            0 <= channel < self.channels,
            self.columns * self.channels <= self.row_stride,
        ensures
            0 <= column * self.channels,
            column * self.channels + channel < self.columns * self.channels <= self.row_stride,
    {
        assert(0 <= column * self.channels) by (nonlinear_arith)
            requires
                0 <= column,
                0 <= self.channels,
        ;
        assert(column * self.channels + channel < self.columns * self.channels)
            by (nonlinear_arith)
            requires
                column + 1 <= self.columns,
                channel < self.channels,
        ;
    }

    /// The sample of a pixel lies in the buffer, and leads back to the pixel.
    pub proof fn lemma_index(self, row: int, column: int, channel: int)
        requires
            self.in_range(row, column, channel),
            self.columns * self.channels <= self.row_stride,
        ensures
            0 <= row * self.row_stride,
            self.offset <= self.index(row, column, channel),
            self.index(row, column, channel) < self.offset + self.rows * self.row_stride,
            self.index(row, column, channel) < self.offset + (self.rows - 1) * self.row_stride
                + self.columns * self.channels,
            self.holds(self.index(row, column, channel)),
            self.row_of(self.index(row, column, channel)) == row,
            self.column_of(self.index(row, column, channel)) == column,
            self.channel_of(self.index(row, column, channel)) == channel,
    {
        self.lemma_offset_in_row(column, channel);
        let stride = self.row_stride as int;
        let w = column * self.channels + channel;
        assert(0 <= row * stride) by (nonlinear_arith)
            requires
                0 <= row,
                0 <= stride,
        ;
        assert(row * stride + w < self.rows * stride) by (nonlinear_arith)
            requires
                row + 1 <= self.rows,
                0 <= w < stride,
        ;
        assert(row * stride <= (self.rows - 1) * stride) by (nonlinear_arith)
            requires
                row <= self.rows - 1,
                0 <= stride,
        ;
        lemma_fundamental_div_mod_converse(row * stride + w, stride, row, w);
        lemma_fundamental_div_mod_converse(w, self.channels as int, column, channel);
    }

    /// A sample that belongs to a pixel stands where its coordinates say.
    pub proof fn lemma_holds(self, i: int)
        requires
            self.holds(i),
        ensures
            self.in_range(self.row_of(i), self.column_of(i), self.channel_of(i)),
            i == self.index(self.row_of(i), self.column_of(i), self.channel_of(i)),
    {
        let stride = self.row_stride as int;
        let d = i - self.offset;
        lemma_fundamental_div_mod(d, stride);
        assert(d / stride >= 0) by (nonlinear_arith)
            requires
                d >= 0,
                stride > 0,
        ;
        assert(self.channels > 0) by (nonlinear_arith)
            requires
                0 <= self.within(i) < self.columns * self.channels,
        ;
        let w = self.within(i);
        let n = self.channels as int;
        lemma_fundamental_div_mod(w, n);
        assert(0 <= w / n < self.columns) by (nonlinear_arith)
            requires
                0 <= w < self.columns * n,
                n > 0,
                w == n * (w / n) + w % n,
                0 <= w % n,
        ;
        assert(n * (w / n) == (w / n) * n) by (nonlinear_arith);
        assert(stride * (d / stride) == (d / stride) * stride) by (nonlinear_arith);
    }

    /// Different samples of a window belong to different pixels or channels.
    pub proof fn lemma_distinct(self, i: int, row: int, column: int, channel: int)
        requires
            self.holds(i),
            self.in_range(row, column, channel),
            self.columns * self.channels <= self.row_stride,
        ensures
            (self.row_of(i) == row && self.column_of(i) == column && self.channel_of(i)
                == channel) <==> i == self.index(row, column, channel),
    {
        self.lemma_holds(i);
        self.lemma_index(row, column, channel);
    }

    /// The samples before a pixel are samples of the buffer.
    pub proof fn lemma_channels(self, column: int, row: int, len: int)
        requires
            self.inside(len),
            0 <= column < self.columns,
            0 <= row < self.rows,
        ensures
            0 <= self.channels * column,
            0 <= self.row_stride * row,
            self.offset + self.channels * column + self.row_stride * row <= len,
    {
        assert(0 <= self.channels * column <= self.columns * self.channels) by (nonlinear_arith)
            requires
                0 <= column < self.columns,
                0 <= self.channels,
        ;
        assert(0 <= self.row_stride * row <= (self.rows - 1) * self.row_stride)
            by (nonlinear_arith)
            requires
                0 <= row <= self.rows - 1,
                0 <= self.row_stride,
        ;
    }

    /// Where the sample of pixel (`row`, `column`) in `channel` stands in a
    /// buffer of `len` samples.
    pub fn at(&self, row: usize, column: usize, channel: usize, len: usize) -> (r: usize)
        requires
            self.inside(len as int),
            self.in_range(row as int, column as int, channel as int),
        ensures
            r == self.index(row as int, column as int, channel as int),
            r < len,
    {
        proof {
            self.lemma_index(row as int, column as int, channel as int);
            self.lemma_offset_in_row(column as int, channel as int);
        }
        self.offset + row * self.row_stride as usize + column * self.channels as usize + channel
    }

    /// A window with a row of samples of its own lies inside its buffer.
    pub proof fn lemma_fits_inside(self, len: int)
        requires
            self.fits(len),
        ensures
            self.inside(len),
    {
        if self.rows > 0 {
            assert((self.rows - 1) * self.row_stride + self.row_stride == self.rows
                * self.row_stride) by (nonlinear_arith);
        }
    }
}

/// A raster of 16-bit samples that owns its buffer.
#[derive(Debug)]
pub struct Area16 {
    pub data: Vec<u16>,
    pub rows: u32,
    pub columns: u32,
    pub channels: u32,
    pub row_stride: u32,
}

/// A raster of 8-bit samples that owns its buffer.
#[derive(Debug)]
pub struct Area8 {
    pub data: Vec<u8>,
    pub rows: u32,
    pub columns: u32,
    pub channels: u32,
    pub row_stride: u32,
}

impl Area16 {
    /// The window that covers the whole raster.
    pub open spec fn full(self) -> Window {
        Window {
            offset: 0,
            rows: self.rows,
            columns: self.columns,
            channels: self.channels,
            row_stride: self.row_stride,
        }
    }

    /// The buffer holds every row, and rows do not overlap.
    pub open spec fn inv(self) -> bool {
        self.full().fits(self.data@.len() as int)
    }

    /// The same size and layout.
    pub open spec fn same_shape(self, other: Self) -> bool {
        self.full() == other.full() && self.data@.len() == other.data@.len()
    }

    /// A raster without a buffer.
    pub fn empty() -> (r: Self)
        ensures
            r.data@.len() == 0,
            r.rows == 0,
            r.columns == 0,
            r.channels == 0,
            r.row_stride == 0,
    {
        Area16 { data: Vec::new(), rows: 0, columns: 0, channels: 0, row_stride: 0 }
    }

    /// The window that covers the whole raster.
    pub fn window(&self) -> (r: Window)
        ensures
            r == self.full(),
    {
        Window {
            offset: 0,
            rows: self.rows,
            columns: self.columns,
            channels: self.channels,
            row_stride: self.row_stride,
        }
    }
}

impl Area8 {
    /// The window that covers the whole raster.
    pub open spec fn full(self) -> Window {
        Window {
            offset: 0,
            rows: self.rows,
            columns: self.columns,
            channels: self.channels,
            row_stride: self.row_stride,
        }
    }

    /// The buffer holds every row, and rows do not overlap.
    pub open spec fn inv(self) -> bool {
        self.full().fits(self.data@.len() as int)
    }

    /// The same size and layout.
    pub open spec fn same_shape(self, other: Self) -> bool {
        self.full() == other.full() && self.data@.len() == other.data@.len()
    }

    /// A raster without a buffer.
    pub fn empty() -> (r: Self)
        ensures
            r.data@.len() == 0,
            r.rows == 0,
            r.columns == 0,
            r.channels == 0,
            r.row_stride == 0,
    {
        Area8 { data: Vec::new(), rows: 0, columns: 0, channels: 0, row_stride: 0 }
    }

    /// The window that covers the whole raster.
    pub fn window(&self) -> (r: Window)
        ensures
            r == self.full(),
    {
        Window {
            offset: 0,
            rows: self.rows,
            columns: self.columns,
            channels: self.channels,
            row_stride: self.row_stride,
        }
    }
}

} // verus!
