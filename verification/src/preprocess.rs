//! The first step from raw samples to a picture: every sample is brought to the
//! intermediate range, and the top layer of a Quattro sensor is brought to the
//! resolution of the others.
//!
//! The mapping from raw to intermediate samples comes as tables, one entry per
//! raw sample.

use crate::area::{Area16, Window};
use crate::bad_pixel_sources::bad_pixel_set;
use crate::bad_pixels::{damage, interpolate_bad_pixels};
use crate::io::X3f;
use vstd::prelude::*;

verus! {

/// The entries of a table over raw samples.
pub const LEVELS: usize = 0x1_0000;

/// The entries of a table over sums of four raw samples.
pub const SUM_LEVELS: usize = 0x3_fffd;

/// The number of layers that an image with or without a top layer of its own is
/// preprocessed in, if their sizes match.
pub open spec fn layers_of(image: Window, top: Option<Window>) -> Option<nat> {
    match top {
        None => if image.channels < 3 {
            None
        } else {
            Some(3)
        },
        Some(t) => if image.channels < 3 || t.channels < 1 || t.rows < 2 * image.rows || t.columns
            < 2 * image.columns {
            None
        } else {
            Some(2)
        },
    }
}

/// The number of layers that an image with or without a top layer of its own is
/// preprocessed in.
pub fn count_layers(image: &Window, top: Option<&Window>) -> (r: Option<usize>)
    ensures
        match r {
            Some(n) => layers_of(
                *image,
                match top {
                    Some(t) => Some(*t),
                    None => None,
                },
            ) == Some(n as nat),
            None => layers_of(
                *image,
                match top {
                    Some(t) => Some(*t),
                    None => None,
                },
            ) is None,
        },
{
    if image.channels < 3 {
        return None;
    }
    match top {
        None => Some(3),
        Some(t) => {
            if t.channels < 1 || (t.rows as u64) < 2 * image.rows as u64 || (t.columns as u64) < 2
                * image.columns as u64 {
                None
            } else {
                Some(2)
            }
        },
    }
}

/// The samples of a window after a table is applied to one of its channels.
pub open spec fn levelled(data: Seq<u16>, w: Window, channel: int, table: Seq<u16>) -> Seq<u16> {
    Seq::new(
        data.len(),
        |i: int|
            if w.holds(i) && w.channel_of(i) == channel {
                table[data[i] as int]
            } else {
                data[i]
            },
    )
}

/// Applies a table to one channel of an image.
pub fn apply_levels(image: &mut Area16, channel: usize, table: &Vec<u16>)
    requires
        old(image).inv(),
        channel < old(image).channels,
        table@.len() == LEVELS,
    ensures
        final(image).same_shape(*old(image)),
        final(image).data@ == levelled(
            old(image).data@,
            old(image).full(),
            channel as int,
            table@,
        ),
{
    let ghost data = image.data@;
    let w: Window = image.window();
    let n: usize = image.data.len();
    proof {
        w.lemma_fits_inside(data.len() as int);
    }
    let (rows, columns): (usize, usize) = (w.rows as usize, w.columns as usize);
    let mut row: usize = 0;
    while row < rows
        invariant
            row <= rows,
            rows == w.rows,
            columns == w.columns,
            channel < w.channels,
            table@.len() == LEVELS,
            w == old(image).full(),
            w.inside(data.len() as int),
            image.same_shape(*old(image)),
            data == old(image).data@,
            n == data.len(),
            forall|i: int|
                0 <= i < data.len() ==> #[trigger] image.data@[i] == (if w.holds(i)
                    && w.channel_of(i) == channel && w.row_of(i) < row {
                    table@[data[i] as int]
                } else {
                    data[i]
                }),
        decreases rows - row,
    {
        let mut column: usize = 0;
        while column < columns
            invariant
                row < rows,
                column <= columns,
                rows == w.rows,
                columns == w.columns,
                channel < w.channels,
                table@.len() == LEVELS,
                w == old(image).full(),
                w.inside(data.len() as int),
                image.same_shape(*old(image)),
                data == old(image).data@,
                n == data.len(),
                forall|i: int|
                    0 <= i < data.len() ==> #[trigger] image.data@[i] == (if w.holds(i)
                        && w.channel_of(i) == channel && (w.row_of(i) < row || w.row_of(i) == row
                        && w.column_of(i) < column) {
                        table@[data[i] as int]
                    } else {
                        data[i]
                    }),
            decreases columns - column,
        {
            let at: usize = w.at(row, column, channel, n);
            proof {
                w.lemma_index(row as int, column as int, channel as int);
                assert(image.data@[at as int] == data[at as int]);
                assert forall|i: int| 0 <= i < data.len() && w.holds(i) && i != at implies !(
                w.channel_of(i) == channel && #[trigger] w.row_of(i) == row && w.column_of(i)
                    == column) by {
                    w.lemma_distinct(i, row as int, column as int, channel as int);
                }
            }
            let v: u16 = table[image.data[at] as usize];
            image.data.set(at, v);
            column = column + 1;
        }
        proof {
            assert forall|i: int| 0 <= i < data.len() && w.holds(i) implies w.column_of(i)
                < columns by {
                w.lemma_holds(i);
            }
        }
        row = row + 1;
    }
    proof {
        assert(image.data@ =~= levelled(data, w, channel as int, table@));
    }
}

/// The sum of the four samples of the top layer that cover a pixel of the other
/// layers.
pub open spec fn top_sum(top: Seq<u16>, t: Window, row: int, column: int) -> int {
    top[t.index(2 * row, 2 * column, 0)] + top[t.index(2 * row, 2 * column + 1, 0)] + top[t.index(
        2 * row + 1,
        2 * column,
        0,
    )] + top[t.index(2 * row + 1, 2 * column + 1, 0)]
}

/// The samples of an image after the top layer is brought into its third channel,
/// by a table over sums of four samples.
pub open spec fn downsampled(
    data: Seq<u16>,
    w: Window,
    top: Seq<u16>,
    t: Window,
    table: Seq<u16>,
) -> Seq<u16> {
    Seq::new(
        data.len(),
        |i: int|
            if w.holds(i) && w.channel_of(i) == 2 {
                table[top_sum(top, t, w.row_of(i), w.column_of(i))]
            } else {
                data[i]
            },
    )
}

/// Brings the top layer into the third channel of an image of half its size.
pub fn downsample_top(image: &mut Area16, top: &Area16, table: &Vec<u16>)
    requires
        old(image).inv(),
        top.inv(),
        layers_of(old(image).full(), Some(top.full())) is Some,
        table@.len() == SUM_LEVELS,
    ensures
        final(image).same_shape(*old(image)),
        final(image).data@ == downsampled(
            old(image).data@,
            old(image).full(),
            top.data@,
            top.full(),
            table@,
        ),
{
    let ghost data = image.data@;
    let w: Window = image.window();
    let t: Window = top.window();
    let n: usize = image.data.len();
    let m: usize = top.data.len();
    proof {
        w.lemma_fits_inside(data.len() as int);
        t.lemma_fits_inside(top.data@.len() as int);
    }
    let (rows, columns): (usize, usize) = (w.rows as usize, w.columns as usize);
    let mut row: usize = 0;
    while row < rows
        invariant
            row <= rows,
            rows == w.rows,
            columns == w.columns,
            2 < w.channels,
            layers_of(w, Some(t)) is Some,
            t == top.full(),
            t.inside(m as int),
            m == top.data@.len(),
            table@.len() == SUM_LEVELS,
            w == old(image).full(),
            w.inside(data.len() as int),
            image.same_shape(*old(image)),
            data == old(image).data@,
            n == data.len(),
            forall|i: int|
                0 <= i < data.len() ==> #[trigger] image.data@[i] == (if w.holds(i)
                    && w.channel_of(i) == 2 && w.row_of(i) < row {
                    table@[top_sum(top.data@, t, w.row_of(i), w.column_of(i))]
                } else {
                    data[i]
                }),
        decreases rows - row,
    {
        let mut column: usize = 0;
        while column < columns
            invariant
                row < rows,
                column <= columns,
                rows == w.rows,
                columns == w.columns,
                2 < w.channels,
                layers_of(w, Some(t)) is Some,
                t == top.full(),
                t.inside(m as int),
                m == top.data@.len(),
                table@.len() == SUM_LEVELS,
                w == old(image).full(),
                w.inside(data.len() as int),
                image.same_shape(*old(image)),
                data == old(image).data@,
                n == data.len(),
                forall|i: int|
                    0 <= i < data.len() ==> #[trigger] image.data@[i] == (if w.holds(i)
                        && w.channel_of(i) == 2 && (w.row_of(i) < row || w.row_of(i) == row
                        && w.column_of(i) < column) {
                        table@[top_sum(top.data@, t, w.row_of(i), w.column_of(i))]
                    } else {
                        data[i]
                    }),
            decreases columns - column,
        {
            let at: usize = w.at(row, column, 2, n);
            proof {
                w.lemma_index(row as int, column as int, 2);
                assert forall|i: int| 0 <= i < data.len() && w.holds(i) && i != at implies !(
                w.channel_of(i) == 2 && #[trigger] w.row_of(i) == row && w.column_of(i)
                    == column) by {
                    w.lemma_distinct(i, row as int, column as int, 2);
                }
            }
            let sum: usize = top.data[t.at(2 * row, 2 * column, 0, m)] as usize + top.data[t.at(
                2 * row,
                2 * column + 1,
                0,
                m,
            )] as usize + top.data[t.at(2 * row + 1, 2 * column, 0, m)] as usize + top.data[t.at(
                2 * row + 1,
                2 * column + 1,
                0,
                m,
            )] as usize;
            image.data.set(at, table[sum]);
            column = column + 1;
        }
        proof {
            assert forall|i: int| 0 <= i < data.len() && w.holds(i) implies w.column_of(i)
                < columns by {
                w.lemma_holds(i);
            }
        }
        row = row + 1;
    }
    assert(image.data@ =~= downsampled(data, w, top.data@, t, table@));
}

/// The tables that an image is preprocessed by.
pub struct LevelTables {
    /// One table per layer.
    pub layers: [Vec<u16>; 3],
    /// The table over sums of four samples of the top layer.
    pub sums: Vec<u16>,
}

impl LevelTables {
    pub open spec fn inv(self) -> bool {
        &&& forall|k: int| 0 <= k < 3 ==> (#[trigger] self.layers@[k])@.len() == LEVELS
        &&& self.sums@.len() == SUM_LEVELS
    }
}

/// The samples after the tables are applied to the first `n` layers.
pub open spec fn all_levelled(data: Seq<u16>, w: Window, tables: LevelTables, n: nat) -> Seq<u16>
    decreases n,
{
    if n == 0 {
        data
    } else {
        levelled(
            all_levelled(data, w, tables, (n - 1) as nat),
            w,
            n - 1,
            tables.layers@[n - 1]@,
        )
    }
}

/// Brings an image of three layers to the intermediate range.
pub fn preprocess_image(image: &mut Area16, tables: &LevelTables)
    requires
        old(image).inv(),
        tables.inv(),
        layers_of(old(image).full(), None) is Some,
    ensures
        final(image).same_shape(*old(image)),
        final(image).data@ == all_levelled(old(image).data@, old(image).full(), *tables, 3),
{
    reveal_with_fuel(all_levelled, 4);
    assert(tables.layers@[0]@.len() == LEVELS);
    apply_levels(image, 0, &tables.layers[0]);
    assert(tables.layers@[1]@.len() == LEVELS);
    apply_levels(image, 1, &tables.layers[1]);
    assert(tables.layers@[2]@.len() == LEVELS);
    apply_levels(image, 2, &tables.layers[2]);
}

/// Brings an image of two layers and its top layer to the intermediate range. The
/// third channel of the image comes from the raw samples of the top layer. With
/// `fix_bad` the bad pixels of the top layer are interpolated.
pub fn preprocess_quattro(
    x3f: &X3f<'_>,
    image: &mut Area16,
    top: &mut Area16,
    tables: &LevelTables,
    fix_bad: bool,
)
    requires
        x3f.inv(),
        old(image).inv(),
        old(top).inv(),
        tables.inv(),
        layers_of(old(image).full(), Some(old(top).full())) is Some,
        fix_bad ==> {
            &&& old(top).rows * old(top).columns <= i32::MAX
            &&& old(top).rows <= i32::MAX
            &&& old(top).columns <= i32::MAX
        },
    ensures
        final(image).same_shape(*old(image)),
        final(image).data@ == downsampled(
            all_levelled(old(image).data@, old(image).full(), *tables, 2),
            old(image).full(),
            old(top).data@,
            old(top).full(),
            tables.sums@,
        ),
        final(top).same_shape(*old(top)),
        final(top).data@ == ({
            let plain = levelled(old(top).data@, old(top).full(), 0, tables.layers@[2]@);
            if fix_bad {
                damage(
                    *old(top),
                    bad_pixel_set(*x3f, old(top).columns, old(top).rows, 1),
                    1,
                ).repaired(plain)
            } else {
                plain
            }
        }),
{
    reveal_with_fuel(all_levelled, 3);
    assert(tables.layers@[0]@.len() == LEVELS);
    apply_levels(image, 0, &tables.layers[0]);
    assert(tables.layers@[1]@.len() == LEVELS);
    apply_levels(image, 1, &tables.layers[1]);
    downsample_top(image, top, &tables.sums);
    assert(tables.layers@[2]@.len() == LEVELS);
    apply_levels(top, 0, &tables.layers[2]);
    if fix_bad {
        interpolate_bad_pixels(x3f, top, 1);
    }
}

/// Preprocessing applies to every sample of the first three channels the table of its
/// layer, and to nothing else.
pub proof fn law_layers_have_their_own_tables(
    data: Seq<u16>,
    w: Window,
    tables: LevelTables,
    row: int,
    column: int,
    ch: int,
)
    requires
        w.inside(data.len() as int),
        0 <= row < w.rows,
        0 <= column < w.columns,
        0 <= ch < w.channels,
    ensures
        ({
            let i = w.offset + row * w.row_stride + column * w.channels + ch;
            let v = data[i];
            &&& all_levelled(data, w, tables, 3)[i] == (if ch < 3 {
                tables.layers@[ch]@[v as int]
            } else {
                v
            })
            &&& all_levelled(data, w, tables, 2)[i] == (if ch < 2 {
                tables.layers@[ch]@[v as int]
            } else {
                v
            })
        }),
{
    reveal_with_fuel(all_levelled, 4);
    w.lemma_index(row, column, ch);
}

/// The third channel of a pixel comes from the four samples of the top layer that cover
/// it, added up, by the table over sums; the other channels stay.
pub proof fn law_four_top_samples_make_one(
    data: Seq<u16>,
    w: Window,
    top: Seq<u16>,
    t: Window,
    table: Seq<u16>,
    row: int,
    column: int,
    ch: int,
)
    requires
        w.inside(data.len() as int),
        t.channels == 1,
        0 <= row < w.rows,
        0 <= column < w.columns,
        0 <= ch < w.channels,
    ensures
        ({
            let i = w.offset + row * w.row_stride + column * w.channels + ch;
            let upper = t.offset + 2 * row * t.row_stride + 2 * column;
            let sum = top[upper] + top[upper + 1] + top[upper + t.row_stride] + top[upper
                + t.row_stride + 1];
            downsampled(data, w, top, t, table)[i] == (if ch == 2 {
                table[sum]
            } else {
                data[i]
            })
        }),
{
    w.lemma_index(row, column, ch);
    let s = t.row_stride as int;
    assert((2 * row + 1) * s == 2 * row * s + s) by (nonlinear_arith);
    assert(t.index(2 * row, 2 * column, 0) == t.offset + 2 * row * s + 2 * column);
}

} // verus!
