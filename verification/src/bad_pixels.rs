//! Interpolation of the sensor's bad pixels from their good neighbours.

use crate::area::{Area16, Window};
use crate::bad_pixel_sources::{bad_pixel_set, collect_bad_pixels, highlight_ok};
use crate::io::X3f;
use vstd::prelude::*;
use vstd::set_lib::lemma_subset_equality;

verus! {

/// A pixel by its column and row.
#[derive(Clone, Copy, Debug, PartialEq, Eq, Structural)]
pub struct BadPixel {
    pub c: i32,
    pub r: i32,
}

/// Whether a pixel lies in an image of this size.
pub open spec fn spec_inb(c: int, r: int, columns: int, rows: int) -> bool {
    0 <= c < columns && 0 <= r < rows
}

/// Whether a pixel can be interpolated from: it lies in the image and is not
/// bad.
pub open spec fn is_good(bad: Set<(int, int)>, c: int, r: int, columns: int, rows: int) -> bool {
    spec_inb(c, r, columns, rows) && !bad.contains((c, r))
}

/// The neighbour of a pixel on side 0 (left), 1 (right), 2 (above) or 3 (below).
pub open spec fn neighbour(c: int, r: int, side: int) -> (int, int) {
    if side == 0 {
        (c - 1, r)
    } else if side == 1 {
        (c + 1, r)
    } else if side == 2 {
        (c, r - 1)
    } else {
        (c, r + 1)
    }
}

/// How a bad pixel is interpolated.
pub enum Repair {
    /// From all four neighbours.
    AllFour,
    /// From the left and the right one.
    AcrossRow,
    /// From the ones above and below.
    AcrossColumn,
    /// From two that meet at a corner.
    Corner,
    /// Not in this pass.
    Later,
}

/// The number of good neighbours.
pub open spec fn good_count(g0: bool, g1: bool, g2: bool, g3: bool) -> int {
    (if g0 {
        1int
    } else {
        0
    }) + (if g1 {
        1int
    } else {
        0
    }) + (if g2 {
        1int
    } else {
        0
    }) + (if g3 {
        1int
    } else {
        0
    })
}

/// How a pixel is interpolated, by which of its neighbours are good. Corners are
/// used only where `corner` allows them.
pub open spec fn choose_repair(g0: bool, g1: bool, g2: bool, g3: bool, corner: bool) -> Repair {
    if g0 && g1 && g2 && g3 {
        Repair::AllFour
    } else if g0 && g1 {
        Repair::AcrossRow
    } else if g2 && g3 {
        Repair::AcrossColumn
    } else if corner && good_count(g0, g1, g2, g3) == 2 {
        Repair::Corner
    } else {
        Repair::Later
    }
}

/// A raster with bad pixels, in the middle of their interpolation.
pub ghost struct Damage {
    pub w: Window,
    /// The channels that are interpolated.
    pub colors: int,
    /// The pixels that are still bad.
    pub bad: Set<(int, int)>,
    /// Whether corners may be used.
    pub corner: bool,
}

impl Damage {
    pub open spec fn good(self, c: int, r: int, side: int) -> bool {
        let n = neighbour(c, r, side);
        is_good(self.bad, n.0, n.1, self.w.columns as int, self.w.rows as int)
    }

    pub open spec fn repair_of(self, c: int, r: int) -> Repair {
        choose_repair(
            self.good(c, r, 0),
            self.good(c, r, 1),
            self.good(c, r, 2),
            self.good(c, r, 3),
            self.corner,
        )
    }

    /// Whether a bad pixel is interpolated in this pass.
    pub open spec fn fixable(self, c: int, r: int) -> bool {
        !(self.repair_of(c, r) is Later)
    }

    /// Whether the neighbour on a side is interpolated from.
    pub open spec fn used(self, c: int, r: int, side: int) -> bool {
        match self.repair_of(c, r) {
            Repair::AllFour => true,
            Repair::AcrossRow => side == 0 || side == 1,
            Repair::AcrossColumn => side == 2 || side == 3,
            Repair::Corner => self.good(c, r, side),
            Repair::Later => false,
        }
    }

    /// What the neighbour on a side contributes in a channel.
    pub open spec fn share(self, data: Seq<u16>, c: int, r: int, channel: int, side: int) -> int {
        let n = neighbour(c, r, side);
        if self.used(c, r, side) {
            data[self.w.index(n.1, n.0, channel)] as int
        } else {
            0
        }
    }

    /// The number of neighbours that are interpolated from.
    pub open spec fn used_count(self, c: int, r: int) -> int {
        good_count(
            self.used(c, r, 0),
            self.used(c, r, 1),
            self.used(c, r, 2),
            self.used(c, r, 3),
        )
    }

    /// The interpolated value: the rounded mean of the neighbours used.
    pub open spec fn mean(self, data: Seq<u16>, c: int, r: int, channel: int) -> int {
        let sum = self.share(data, c, r, channel, 0) + self.share(data, c, r, channel, 1)
            + self.share(data, c, r, channel, 2) + self.share(data, c, r, channel, 3);
        let n = self.used_count(c, r);
        (sum + n / 2) / n
    }

    /// Whether sample `i` belongs to a pixel that this pass interpolates, in a
    /// channel that it interpolates.
    pub open spec fn touches(self, i: int) -> bool {
        &&& self.w.holds(i)
        &&& self.w.channel_of(i) < self.colors
        &&& self.bad.contains((self.w.column_of(i), self.w.row_of(i)))
        &&& self.fixable(self.w.column_of(i), self.w.row_of(i))
    }

    /// The samples after a pass.
    pub open spec fn pass(self, data: Seq<u16>) -> Seq<u16> {
        Seq::new(
            data.len(),
            |i: int|
                if self.touches(i) {
                    self.mean(
                        data,
                        self.w.column_of(i),
                        self.w.row_of(i),
                        self.w.channel_of(i),
                    ) as u16
                } else {
                    data[i]
                },
        )
    }

    /// The pixels that are still bad after a pass.
    pub open spec fn left(self) -> Set<(int, int)> {
        self.bad.filter(|p: (int, int)| !self.fixable(p.0, p.1))
    }

    /// What follows a pass: with fewer bad pixels, or with corners allowed.
    pub open spec fn next(self) -> Damage {
        if self.left() == self.bad {
            Damage { corner: true, ..self }
        } else {
            Damage { bad: self.left(), ..self }
        }
    }

    /// The samples once no pass can interpolate any more pixels.
    pub open spec fn repaired(self, data: Seq<u16>) -> Seq<u16>
        decreases
                self.bad.len(),
                if self.corner {
                    0int
                } else {
                    1
                },
        when self.bad.finite()
    {
        proof {
            if self.left() != self.bad {
                self.lemma_left_smaller();
            }
        }
        if self.bad.len() == 0 {
            data
        } else if self.left() == self.bad {
            if self.corner {
                data
            } else {
                self.next().repaired(data)
            }
        } else {
            self.next().repaired(self.pass(data))
        }
    }

    /// A pass that interpolates anything leaves fewer bad pixels.
    pub proof fn lemma_left_smaller(self)
        requires
            self.bad.finite(),
            self.left() != self.bad,
        ensures
            self.left().finite(),
            self.left().len() < self.bad.len(),
    {
        self.bad.lemma_len_filter(|p: (int, int)| !self.fixable(p.0, p.1));
        assert(self.left().subset_of(self.bad));
        if self.left().len() == self.bad.len() {
            lemma_subset_equality(self.left(), self.bad);
        }
    }

    /// The mean is taken over two or four samples, and is a sample.
    proof fn lemma_mean(self, data: Seq<u16>, c: int, r: int, channel: int)
        requires
            self.fixable(c, r),
        ensures
            self.used_count(c, r) == 2 || self.used_count(c, r) == 4,
            0 <= self.mean(data, c, r, channel) <= u16::MAX,
    {
        let (g0, g1, g2, g3) = (
            self.good(c, r, 0),
            self.good(c, r, 1),
            self.good(c, r, 2),
            self.good(c, r, 3),
        );
        assert(self.used_count(c, r) == 2 || self.used_count(c, r) == 4);
    }
}

/// Whether a pixel lies in an image of this size.
pub fn inb(c: i64, r: i64, cs: i64, rs: i64) -> (b: bool)
    ensures
        b == spec_inb(c as int, r as int, cs as int, rs as int),
{
    c >= 0 && c < cs && r >= 0 && r < rs
}

/// Bit `n` of a bit vector.
pub open spec fn bit_of(bits: Seq<u32>, n: int) -> bool {
    bits[n / 32] & (1u32 << (n % 32) as u32) != 0
}

/// Setting a bit sets that bit and no other.
proof fn lemma_set_bit(word: u32, k: u32, j: u32)
    requires
        k < 32,
        j < 32,
    ensures
        ((word | (1u32 << k)) & (1u32 << j) != 0) == (j == k || word & (1u32 << j) != 0),
{
    assert(((word | (1u32 << k)) & (1u32 << j) != 0) == (j == k || word & (1u32 << j) != 0))
        by (bit_vector)
        requires
            k < 32,
            j < 32,
    ;
}

/// Clearing a bit clears that bit and no other.
proof fn lemma_clear_bit(word: u32, k: u32, j: u32)
    requires
        k < 32,
        j < 32,
    ensures
        ((word & !(1u32 << k)) & (1u32 << j) != 0) == (j != k && word & (1u32 << j) != 0),
{
    assert(((word & !(1u32 << k)) & (1u32 << j) != 0) == (j != k && word & (1u32 << j) != 0))
        by (bit_vector)
        requires
            k < 32,
            j < 32,
    ;
}

/// A word without bits has none.
proof fn lemma_no_bits(j: u32)
    requires
        j < 32,
    ensures
        0u32 & (1u32 << j) == 0,
{
    assert(0u32 & (1u32 << j) == 0) by (bit_vector);
}

/// The number of a pixel in reading order.
pub open spec fn spec_pn(c: int, r: int, columns: int) -> int {
    r * columns + c
}

/// Pixels of an image have different numbers, all below its pixel count.
proof fn lemma_pn(c: int, r: int, columns: int, rows: int)
    requires
        spec_inb(c, r, columns, rows),
    ensures
        0 <= spec_pn(c, r, columns) < rows * columns,
        spec_pn(c, r, columns) / columns == r,
        spec_pn(c, r, columns) % columns == c,
{
    assert(0 <= r * columns) by (nonlinear_arith)
        requires
            0 <= r,
            0 < columns,
    ;
    assert(r * columns + c < rows * columns) by (nonlinear_arith)
        requires
            r + 1 <= rows,
            0 <= c < columns,
    ;
    vstd::arithmetic::div_mod::lemma_fundamental_div_mod_converse(r * columns + c, columns, r, c);
}

/// The pixels of a list.
pub open spec fn pixel_seq(list: Seq<BadPixel>) -> Seq<(int, int)> {
    list.map_values(|p: BadPixel| (p.c as int, p.r as int))
}

/// The bad pixels of an image: a bit vector over its pixels, and a list that holds
/// every bad pixel. The list may also hold pixels that were bad before.
pub struct BadPixels {
    list: Vec<BadPixel>,
    bits: Vec<u32>,
    cs: i64,
    rs: i64,
}

impl BadPixels {
    pub closed spec fn columns(self) -> int {
        self.cs as int
    }

    pub closed spec fn rows(self) -> int {
        self.rs as int
    }

    /// The bad pixels.
    pub closed spec fn bad(self) -> Set<(int, int)> {
        Set::new(
            |p: (int, int)|
                spec_inb(p.0, p.1, self.cs as int, self.rs as int) && self.marked(p.0, p.1),
        )
    }

    /// Whether a pixel is bad or outside the image.
    pub open spec fn is_bad(self, c: int, r: int) -> bool {
        !is_good(self.bad(), c, r, self.columns(), self.rows())
    }

    spec fn marked(self, c: int, r: int) -> bool {
        bit_of(self.bits@, spec_pn(c, r, self.cs as int))
    }

    spec fn shape(self) -> bool {
        &&& 0 <= self.cs <= i32::MAX
        &&& 0 <= self.rs <= i32::MAX
        &&& self.rs * self.cs <= i32::MAX
        &&& self.bits@.len() == (self.rs * self.cs + 31) / 32
    }

    /// The list holds pixels of the image, among them all that are marked.
    pub closed spec fn inv(self) -> bool {
        &&& self.shape()
        &&& forall|k: int|
            0 <= k < self.list@.len() ==> spec_inb(
                (#[trigger] self.list@[k]).c as int,
                self.list@[k].r as int,
                self.cs as int,
                self.rs as int,
            )
        &&& self.bad().subset_of(pixel_seq(self.list@).to_set())
    }

    /// What the invariant says, for other modules.
    pub proof fn lemma_inv(self)
        requires
            self.inv(),
        ensures
            0 <= self.columns() <= i32::MAX,
            0 <= self.rows() <= i32::MAX,
            self.bad().finite(),
            forall|p: (int, int)| #[trigger]
                self.bad().contains(p) ==> spec_inb(p.0, p.1, self.columns(), self.rows()),
    {
        vstd::seq_lib::seq_to_set_is_finite(pixel_seq(self.list@));
        vstd::set_lib::lemma_len_subset(self.bad(), pixel_seq(self.list@).to_set());
    }

    /// An image of this size without bad pixels.
    pub fn new(columns: u32, rows: u32) -> (r: Self)
        requires
            rows * columns <= i32::MAX,
            rows <= i32::MAX,
            columns <= i32::MAX,
        ensures
            r.inv(),
            r.columns() == columns,
            r.rows() == rows,
            r.bad() == Set::<(int, int)>::empty(),
    {
        let (cs, rs): (i64, i64) = (columns as i64, rows as i64);
        assert(0 <= rs * cs) by (nonlinear_arith)
            requires
                0 <= rs,
                0 <= cs,
        ;
        let words: usize = ((rs * cs + 31) / 32) as usize;
        let r: BadPixels = BadPixels { list: Vec::new(), bits: vec![0u32; words], cs, rs };
        proof {
            assert forall|c: int, q: int| spec_inb(
                c,
                q,
                cs as int,
                rs as int,
            ) implies !#[trigger] r.marked(c, q) by {
                lemma_pn(c, q, cs as int, rs as int);
                lemma_no_bits((spec_pn(c, q, cs as int) % 32) as u32);
            }
            assert(r.bad() =~= Set::<(int, int)>::empty());
        }
        r
    }

    /// Whether a pixel is bad or outside the image.
    pub fn test_pix(&self, c: i64, r: i64) -> (b: bool)
        requires
            self.inv(),
        ensures
            b == self.is_bad(c as int, r as int),
    {
        if !inb(c, r, self.cs, self.rs) {
            return true;
        }
        proof {
            lemma_pn(c as int, r as int, self.cs as int, self.rs as int);
        }
        let n: usize = (r * self.cs + c) as usize;
        self.bits[n / 32] & (1u32 << (n % 32) as u32) != 0
    }

    /// Adds a pixel to the bad ones, if it lies in the image.
    pub fn mark_pix(&mut self, c: i64, r: i64)
        requires
            old(self).inv(),
        ensures
            final(self).inv(),
            final(self).columns() == old(self).columns(),
            final(self).rows() == old(self).rows(),
            final(self).bad() == (if spec_inb(
                c as int,
                r as int,
                old(self).columns(),
                old(self).rows(),
            ) {
                old(self).bad().insert((c as int, r as int))
            } else {
                old(self).bad()
            }),
    {
        if self.test_pix(c, r) {
            proof {
                if spec_inb(c as int, r as int, self.columns(), self.rows()) {
                    assert(self.bad().insert((c as int, r as int)) =~= self.bad());
                }
            }
            return;
        }
        let ghost before = *self;
        proof {
            lemma_pn(c as int, r as int, self.cs as int, self.rs as int);
        }
        let n: usize = (r * self.cs + c) as usize;
        let word: u32 = self.bits[n / 32];
        self.list.push(BadPixel { c: c as i32, r: r as i32 });
        self.bits.set(n / 32, word | (1u32 << (n % 32) as u32));
        proof {
            let p = (c as int, r as int);
            assert(pixel_seq(self.list@) =~= pixel_seq(before.list@).push(p));
            pixel_seq(before.list@).lemma_push_to_set_commute(p);
            assert forall|x: int, y: int|
                spec_inb(x, y, self.cs as int, self.rs as int) implies #[trigger] self.marked(x, y)
                == (before.marked(x, y) || (x, y) == p) by {
                lemma_pn(x, y, self.cs as int, self.rs as int);
                let m = spec_pn(x, y, self.cs as int);
                lemma_set_bit(word, (n % 32) as u32, (m % 32) as u32);
                if m == n {
                    assert((x, y) == p);
                }
            }
            assert(self.bad() =~= before.bad().insert(p));
        }
    }

    /// Takes a pixel of the image out of the bad ones. Every other pixel is
    /// answered as before.
    pub fn clear_pix(&mut self, c: i64, r: i64)
        requires
            old(self).inv(),
            spec_inb(c as int, r as int, old(self).columns(), old(self).rows()),
        ensures
            final(self).inv(),
            final(self).columns() == old(self).columns(),
            final(self).rows() == old(self).rows(),
            final(self).bad() == old(self).bad().remove((c as int, r as int)),
            !final(self).is_bad(c as int, r as int),
            forall|x: int, y: int|
                (x, y) != (c as int, r as int) ==> #[trigger] final(self).is_bad(x, y) == old(
                    self,
                ).is_bad(x, y),
    {
        let ghost before = *self;
        proof {
            lemma_pn(c as int, r as int, self.cs as int, self.rs as int);
        }
        let n: usize = (r * self.cs + c) as usize;
        let word: u32 = self.bits[n / 32];
        self.bits.set(n / 32, word & !(1u32 << (n % 32) as u32));
        proof {
            let p = (c as int, r as int);
            assert forall|x: int, y: int|
                spec_inb(x, y, self.cs as int, self.rs as int) implies #[trigger] self.marked(x, y)
                == (before.marked(x, y) && (x, y) != p) by {
                lemma_pn(x, y, self.cs as int, self.rs as int);
                let m = spec_pn(x, y, self.cs as int);
                lemma_clear_bit(word, (n % 32) as u32, (m % 32) as u32);
                if m == n {
                    assert((x, y) == p);
                }
            }
            assert(self.bad() =~= before.bad().remove(p));
        }
    }
}

/// The samples of a raster after some of a pass's pixels are interpolated: the
/// ones in `done`.
spec fn partly(d: Damage, data: Seq<u16>, done: Set<(int, int)>) -> Seq<u16> {
    Seq::new(
        data.len(),
        |i: int|
            if d.touches(i) && done.contains((d.w.column_of(i), d.w.row_of(i))) {
                d.mean(data, d.w.column_of(i), d.w.row_of(i), d.w.channel_of(i)) as u16
            } else {
                data[i]
            },
    )
}

/// A good neighbour of a bad pixel, by its column and row.
fn good_neighbour(bp: &BadPixels, c: i64, r: i64, side: u8, Ghost(d): Ghost<Damage>) -> (good: bool)
    requires
        bp.inv(),
        side < 4,
        d.bad == bp.bad(),
        d.w.columns == bp.columns(),
        d.w.rows == bp.rows(),
        0 <= c < i32::MAX,
        0 <= r < i32::MAX,
    ensures
        good == d.good(c as int, r as int, side as int),
{
    if side == 0 {
        !bp.test_pix(c - 1, r)
    } else if side == 1 {
        !bp.test_pix(c + 1, r)
    } else if side == 2 {
        !bp.test_pix(c, r - 1)
    } else {
        !bp.test_pix(c, r + 1)
    }
}

/// The sample of the neighbour on a side in a channel, if it is used; zero if it
/// is not.
fn neighbour_share(
    image: &Area16,
    c: usize,
    r: usize,
    channel: usize,
    side: u8,
    used: bool,
    Ghost(d): Ghost<Damage>,
    Ghost(data): Ghost<Seq<u16>>,
) -> (s: u32)
    requires
        image.inv(),
        d.w == image.full(),
        side < 4,
        used == d.used(c as int, r as int, side as int),
        used ==> d.good(c as int, r as int, side as int),
        channel < image.channels,
        c < i32::MAX,
        r < i32::MAX,
        data.len() == image.data@.len(),
        forall|i: int|
            0 <= i < data.len() && d.w.holds(i) && !d.bad.contains(
                (d.w.column_of(i), d.w.row_of(i)),
            ) ==> image.data@[i] == #[trigger] data[i],
    ensures
        s == d.share(data, c as int, r as int, channel as int, side as int),
        s <= u16::MAX,
{
    if !used {
        return 0;
    }
    let (nc, nr): (usize, usize) = if side == 0 {
        (c - 1, r)
    } else if side == 1 {
        (c + 1, r)
    } else if side == 2 {
        (c, r - 1)
    } else {
        (c, r + 1)
    };
    proof {
        d.w.lemma_fits_inside(image.data@.len() as int);
        d.w.lemma_index(nr as int, nc as int, channel as int);
    }
    let w: Window = image.window();
    let i: usize = w.at(nr, nc, channel, image.data.len());
    assert(image.data@[i as int] == data[i as int]);
    image.data[i] as u32
}

/// Interpolates a bad pixel, if that is possible in this pass.
fn fix_pixel(
    image: &mut Area16,
    bp: &BadPixels,
    p: BadPixel,
    colors: usize,
    corner: bool,
    Ghost(d): Ghost<Damage>,
    Ghost(data): Ghost<Seq<u16>>,
    Ghost(done): Ghost<Set<(int, int)>>,
) -> (fixed: bool)
    requires
        old(image).inv(),
        bp.inv(),
        d == (Damage { w: old(image).full(), colors: colors as int, bad: bp.bad(), corner }),
        d.w.columns == bp.columns(),
        d.w.rows == bp.rows(),
        colors <= d.w.channels,
        bp.bad().contains((p.c as int, p.r as int)),
        old(image).data@ == partly(d, data, done),
        data.len() == old(image).data@.len(),
    ensures
        fixed == d.fixable(p.c as int, p.r as int),
        final(image).same_shape(*old(image)),
        final(image).data@ == partly(d, data, done.insert((p.c as int, p.r as int))),
{
    let ghost q = (p.c as int, p.r as int);
    proof {
        bp.lemma_inv();
        d.w.lemma_fits_inside(data.len() as int);
    }
    let (c, r): (i64, i64) = (p.c as i64, p.r as i64);
    let g0: bool = good_neighbour(bp, c, r, 0, Ghost(d));
    let g1: bool = good_neighbour(bp, c, r, 1, Ghost(d));
    let g2: bool = good_neighbour(bp, c, r, 2, Ghost(d));
    let g3: bool = good_neighbour(bp, c, r, 3, Ghost(d));
    let num: u32 = g0 as u32 + g1 as u32 + g2 as u32 + g3 as u32;
    let (u0, u1, u2, u3, n): (bool, bool, bool, bool, u32) = if g0 && g1 && g2 && g3 {
        (true, true, true, true, 4)
    } else if g0 && g1 {
        (true, true, false, false, 2)
    } else if g2 && g3 {
        (false, false, true, true, 2)
    } else if corner && num == 2 {
        (g0, g1, g2, g3, 2)
    } else {
        assert(image.data@ =~= partly(d, data, done.insert(q)));
        return false;
    };
    proof {
        d.lemma_mean(data, q.0, q.1, 0);
        assert(u0 == d.used(q.0, q.1, 0) && u1 == d.used(q.0, q.1, 1));
        assert(u2 == d.used(q.0, q.1, 2) && u3 == d.used(q.0, q.1, 3));
        assert(n == d.used_count(q.0, q.1));
    }
    let (cu, ru): (usize, usize) = (c as usize, r as usize);
    let mut color: usize = 0;
    while color < colors
        invariant
            color <= colors,
            colors <= d.w.channels,
            image.inv(),
            image.same_shape(*old(image)),
            image.full() == d.w,
            d.w.inside(data.len() as int),
            data.len() == image.data@.len(),
            d.colors == colors,
            d.bad.contains(q),
            d.fixable(q.0, q.1),
            q == (cu as int, ru as int),
            spec_inb(q.0, q.1, d.w.columns as int, d.w.rows as int),
            d.w.columns <= i32::MAX,
            d.w.rows <= i32::MAX,
            u0 == d.used(q.0, q.1, 0),
            u1 == d.used(q.0, q.1, 1),
            u2 == d.used(q.0, q.1, 2),
            u3 == d.used(q.0, q.1, 3),
            u0 ==> d.good(q.0, q.1, 0),
            u1 ==> d.good(q.0, q.1, 1),
            u2 ==> d.good(q.0, q.1, 2),
            u3 ==> d.good(q.0, q.1, 3),
            n == d.used_count(q.0, q.1),
            n == 2 || n == 4,
            forall|i: int|
                0 <= i < data.len() ==> #[trigger] image.data@[i] == (if d.touches(i) && (
                done.contains((d.w.column_of(i), d.w.row_of(i))) || (
                d.w.column_of(i),
                d.w.row_of(i),
            ) == q && d.w.channel_of(i) < color) {
                    d.mean(data, d.w.column_of(i), d.w.row_of(i), d.w.channel_of(i)) as u16
                } else {
                    data[i]
                }),
        decreases colors - color,
    {
        let ghost before = image.data@;
        let sum: u32 = neighbour_share(image, cu, ru, color, 0, u0, Ghost(d), Ghost(data))
            + neighbour_share(image, cu, ru, color, 1, u1, Ghost(d), Ghost(data))
            + neighbour_share(image, cu, ru, color, 2, u2, Ghost(d), Ghost(data))
            + neighbour_share(image, cu, ru, color, 3, u3, Ghost(d), Ghost(data));
        proof {
            d.lemma_mean(data, q.0, q.1, color as int);
            d.w.lemma_index(q.1, q.0, color as int);
        }
        let w: Window = image.window();
        let at: usize = w.at(ru, cu, color, image.data.len());
        let value: u16 = ((sum + n / 2) / n) as u16;
        assert(value == d.mean(data, q.0, q.1, color as int));
        image.data.set(at, value);
        proof {
            assert forall|i: int| 0 <= i < data.len() && i != at && #[trigger] d.touches(i) implies (
            ((d.w.column_of(i), d.w.row_of(i)) == q && d.w.channel_of(i) < color + 1) == ((
                d.w.column_of(i),
                d.w.row_of(i),
            ) == q && d.w.channel_of(i) < color)) by {
                d.w.lemma_distinct(i, q.1, q.0, color as int);
            }
        }
        color = color + 1;
    }
    assert(image.data@ =~= partly(d, data, done.insert(q)));
    true
}

/// One more pixel of a list.
proof fn lemma_list_push(list: Seq<BadPixel>, p: BadPixel)
    ensures
        pixel_seq(list.push(p)) == pixel_seq(list).push((p.c as int, p.r as int)),
        pixel_seq(list.push(p)).to_set() == pixel_seq(list).to_set().insert(
            (p.c as int, p.r as int),
        ),
{
    let q = (p.c as int, p.r as int);
    assert(pixel_seq(list.push(p)) =~= pixel_seq(list).push(q));
    pixel_seq(list).lemma_push_to_set_commute(q);
}

/// The first pixels of a list.
proof fn lemma_list_take(list: Seq<BadPixel>, k: int)
    requires
        0 <= k < list.len(),
    ensures
        pixel_seq(list.take(k + 1)).to_set() == pixel_seq(list.take(k)).to_set().insert(
            (list[k].c as int, list[k].r as int),
        ),
        pixel_seq(list).to_set().contains((list[k].c as int, list[k].r as int)),
{
    assert(list.take(k + 1) =~= list.take(k).push(list[k]));
    lemma_list_push(list.take(k), list[k]);
    assert(pixel_seq(list)[k] == (list[k].c as int, list[k].r as int));
}

impl Damage {
    /// A pass that interpolates nothing changes nothing.
    proof fn lemma_idle(self, data: Seq<u16>)
        requires
            self.left() == self.bad,
        ensures
            self.pass(data) == data,
    {
        assert forall|i: int| 0 <= i < data.len() implies self.pass(data)[i] == data[i] by {
            if self.touches(i) {
                assert(!self.left().contains((self.w.column_of(i), self.w.row_of(i))));
            }
        }
        assert(self.pass(data) =~= data);
    }
}

/// Interpolates the bad pixels that have good neighbours enough, all from the
/// samples before the pass. Returns whether there were any.
fn fix_pass(image: &mut Area16, bp: &mut BadPixels, colors: usize, corner: bool, Ghost(d): Ghost<
    Damage,
>) -> (any: bool)
    requires
        old(image).inv(),
        old(bp).inv(),
        d == (Damage { w: old(image).full(), colors: colors as int, bad: old(bp).bad(), corner }),
        d.w.columns == old(bp).columns(),
        d.w.rows == old(bp).rows(),
        colors <= d.w.channels,
    ensures
        final(image).same_shape(*old(image)),
        final(image).data@ == d.pass(old(image).data@),
        final(bp).inv(),
        final(bp).columns() == old(bp).columns(),
        final(bp).rows() == old(bp).rows(),
        final(bp).bad() == d.left(),
        any == (d.left() != d.bad),
{
    let ghost data = image.data@;
    let mut still: Vec<BadPixel> = Vec::new();
    let mut fixed: Vec<BadPixel> = Vec::new();
    let mut i: usize = 0;
    let ghost mut done: Set<(int, int)> = Set::empty();
    proof {
        bp.lemma_inv();
        assert(bp.list@.take(0) =~= Seq::<BadPixel>::empty());
        assert(pixel_seq(bp.list@.take(0)).to_set() =~= Set::empty());
        assert(pixel_seq(still@).to_set() =~= Set::empty());
        assert(pixel_seq(fixed@).to_set() =~= Set::empty());
        assert(image.data@ =~= partly(d, data, done));
    }
    while i < bp.list.len()
        invariant
            i <= bp.list@.len(),
            *bp == *old(bp),
            bp.inv(),
            image.inv(),
            image.same_shape(*old(image)),
            d == (Damage { w: image.full(), colors: colors as int, bad: bp.bad(), corner }),
            d.w.columns == bp.columns(),
            d.w.rows == bp.rows(),
            colors <= d.w.channels,
            data.len() == image.data@.len(),
            done == pixel_seq(bp.list@.take(i as int)).to_set(),
            image.data@ == partly(d, data, done),
            forall|p: (int, int)| #[trigger]
                pixel_seq(still@).to_set().contains(p) == (done.contains(p) && d.bad.contains(p)
                    && !d.fixable(p.0, p.1)),
            forall|p: (int, int)| #[trigger]
                pixel_seq(fixed@).to_set().contains(p) == (done.contains(p) && d.bad.contains(p)
                    && d.fixable(p.0, p.1)),
        decreases bp.list@.len() - i,
    {
        let p: BadPixel = bp.list[i];
        proof {
            lemma_list_take(bp.list@, i as int);
            bp.lemma_inv();
        }
        if !bp.test_pix(p.c as i64, p.r as i64) {
            assert(image.data@ =~= partly(d, data, done.insert((p.c as int, p.r as int))));
        } else if fix_pixel(image, bp, p, colors, corner, Ghost(d), Ghost(data), Ghost(done)) {
            proof {
                lemma_list_push(fixed@, p);
            }
            fixed.push(p);
        } else {
            proof {
                lemma_list_push(still@, p);
            }
            still.push(p);
        }
        proof {
            done = done.insert((p.c as int, p.r as int));
        }
        i = i + 1;
    }
    proof {
        assert(bp.list@.take(bp.list@.len() as int) =~= bp.list@);
        assert(d.bad.subset_of(done));
        assert(image.data@ =~= d.pass(data));
        assert(pixel_seq(still@).to_set() =~= d.left());
        if fixed@.len() > 0 {
            lemma_list_take(fixed@, 0);
            let q = (fixed@[0].c as int, fixed@[0].r as int);
            assert(!d.left().contains(q) && d.bad.contains(q));
        } else {
            assert(pixel_seq(fixed@).to_set() =~= Set::empty());
            assert forall|p: (int, int)| #[trigger] d.bad.contains(p) implies d.left().contains(
                p,
            ) by {
                assert(!pixel_seq(fixed@).to_set().contains(p));
            }
            assert(d.left() =~= d.bad);
        }
        assert(fixed@.take(0) =~= Seq::<BadPixel>::empty());
        assert(bp.bad() =~= d.bad.difference(pixel_seq(fixed@.take(0)).to_set()));
    }
    let mut k: usize = 0;
    while k < fixed.len()
        invariant
            k <= fixed@.len(),
            bp.inv(),
            bp.columns() == d.w.columns,
            bp.rows() == d.w.rows,
            forall|p: (int, int)| #[trigger]
                d.bad.contains(p) ==> spec_inb(p.0, p.1, d.w.columns as int, d.w.rows as int),
            pixel_seq(fixed@).to_set().subset_of(d.bad),
            bp.bad() == d.bad.difference(pixel_seq(fixed@.take(k as int)).to_set()),
        decreases fixed@.len() - k,
    {
        let p: BadPixel = fixed[k];
        proof {
            lemma_list_take(fixed@, k as int);
            assert(d.bad.contains((p.c as int, p.r as int)));
        }
        bp.clear_pix(p.c as i64, p.r as i64);
        k = k + 1;
        assert(bp.bad() =~= d.bad.difference(pixel_seq(fixed@.take(k as int)).to_set()));
    }
    proof {
        assert(fixed@.take(fixed@.len() as int) =~= fixed@);
        assert(bp.bad() =~= d.left());
        assert forall|k: int| 0 <= k < still@.len() implies spec_inb(
            (#[trigger] still@[k]).c as int,
            still@[k].r as int,
            bp.cs as int,
            bp.rs as int,
        ) by {
            lemma_list_take(still@, k);
        }
    }
    let ghost cleared = *bp;
    bp.list = still;
    assert(bp.bad() =~= cleared.bad());
    fixed.len() > 0
}

/// The state in which the interpolation of an image's bad pixels begins.
pub open spec fn damage(image: Area16, bad: Set<(int, int)>, colors: u32) -> Damage {
    Damage { w: image.full(), colors: colors as int, bad, corner: false }
}

/// Interpolates the pixels that the metadata name as bad, in the first `colors`
/// channels of an image.
pub fn interpolate_bad_pixels(x3f: &X3f<'_>, image: &mut Area16, colors: u32)
    requires
        x3f.inv(),
        old(image).inv(),
        old(image).rows * old(image).columns <= i32::MAX,
        old(image).columns <= i32::MAX,
        old(image).rows <= i32::MAX,
        colors <= old(image).channels,
        colors == 3 ==> highlight_ok(*x3f, old(image).columns, old(image).rows),
    ensures
        final(image).same_shape(*old(image)),
        final(image).data@ == damage(
            *old(image),
            bad_pixel_set(*x3f, old(image).columns, old(image).rows, colors),
            colors,
        ).repaired(old(image).data@),
{
    let mut bp: BadPixels = collect_bad_pixels(x3f, image.columns, image.rows, colors);
    let mut corner: bool = false;
    let ghost repaired = damage(*image, bp.bad(), colors).repaired(image.data@);
    let mut going: bool = bp.list.len() > 0;
    proof {
        bp.lemma_inv();
        if !going {
            assert(bp.bad() =~= Set::empty());
        }
    }
    while going
        invariant
            image.inv(),
            image.same_shape(*old(image)),
            bp.inv(),
            bp.columns() == image.columns,
            bp.rows() == image.rows,
            colors <= image.channels,
            going ==> repaired == (Damage {
                w: image.full(),
                colors: colors as int,
                bad: bp.bad(),
                corner,
            }).repaired(image.data@),
            !going ==> image.data@ == repaired,
        decreases
                if going {
                    1int
                } else {
                    0
                },
                bp.bad().len(),
                if corner {
                    0int
                } else {
                    1
                },
    {
        let ghost d = Damage { w: image.full(), colors: colors as int, bad: bp.bad(), corner };
        let ghost data = image.data@;
        proof {
            bp.lemma_inv();
            if d.bad.len() == 0 {
                d.bad.lemma_len0_is_empty();
                assert(d.left() =~= d.bad);
            }
            if d.left() != d.bad {
                d.lemma_left_smaller();
            } else {
                d.lemma_idle(data);
            }
        }
        if fix_pass(image, &mut bp, colors as usize, corner, Ghost(d)) {
            going = bp.list.len() > 0;
            proof {
                if !going {
                    assert(bp.bad() =~= Set::empty());
                    assert(d.next().repaired(image.data@) == image.data@);
                }
            }
        } else if corner {
            going = false;
        } else {
            corner = true;
            going = bp.list.len() > 0;
            proof {
                if !going {
                    assert(bp.bad() =~= Set::empty());
                }
            }
        }
    }
}

/// After a pass, of the pixels that were bad exactly those are good that it
/// interpolated; every other pixel is answered as before.
pub proof fn law_a_pass_frees_what_it_interpolates(
    d: Damage,
    before: BadPixels,
    after: BadPixels,
    c: int,
    r: int,
)
    requires
        before.inv(),
        after.inv(),
        d.bad == before.bad(),
        after.bad() == d.left(),
        before.columns() == after.columns() == d.w.columns,
        before.rows() == after.rows() == d.w.rows,
    ensures
        before.bad().contains((c, r)) ==> (after.is_bad(c, r) <==> !d.fixable(c, r)),
        !before.bad().contains((c, r)) ==> after.is_bad(c, r) == before.is_bad(c, r),
{
    before.lemma_inv();
    if before.bad().contains((c, r)) {
        assert(spec_inb(c, r, before.columns(), before.rows()));
    }
}

/// Interpolation changes no sample but those of bad pixels in the channels that
/// it works on.
pub proof fn law_good_pixels_stay(d: Damage, data: Seq<u16>, i: int)
    requires
        d.bad.finite(),
        0 <= i < data.len(),
        !(d.w.holds(i) && d.w.channel_of(i) < d.colors && d.bad.contains(
            (d.w.column_of(i), d.w.row_of(i)),
        )),
    ensures
        d.repaired(data).len() == data.len(),
        d.repaired(data)[i] == data[i],
    decreases
            d.bad.len(),
            if d.corner {
                0int
            } else {
                1
            },
{
    if d.bad.len() == 0 {
    } else if d.left() == d.bad {
        if !d.corner {
            law_good_pixels_stay(d.next(), data, i);
        }
    } else {
        d.lemma_left_smaller();
        law_good_pixels_stay(d.next(), d.pass(data), i);
    }
}

/// A bad pixel that has good neighbours enough from the start gets the rounded
/// mean of their samples, whatever else is bad.
pub proof fn law_first_pass_decides(d: Damage, data: Seq<u16>, i: int)
    requires
        d.bad.finite(),
        0 <= i < data.len(),
        d.touches(i),
    ensures
        d.repaired(data)[i] == d.mean(
            data,
            d.w.column_of(i),
            d.w.row_of(i),
            d.w.channel_of(i),
        ),
{
    let q = (d.w.column_of(i), d.w.row_of(i));
    assert(!d.left().contains(q));
    assert(d.bad.len() > 0) by {
        if d.bad.len() == 0 {
            d.bad.lemma_len0_is_empty();
        }
    }
    d.lemma_left_smaller();
    d.lemma_mean(data, q.0, q.1, d.w.channel_of(i));
    law_good_pixels_stay(d.next(), d.pass(data), i);
}

/// An interpolated sample is neither below nor above all samples that it comes
/// from.
pub proof fn law_interpolated_samples_lie_between(
    d: Damage,
    data: Seq<u16>,
    i: int,
    low: int,
    high: int,
)
    requires
        d.touches(i),
        0 <= i < data.len(),
        0 <= low <= high <= 0xffff,
        forall|side: int|
            0 <= side < 4 && d.used(d.w.column_of(i), d.w.row_of(i), side) ==> low
                <= #[trigger] d.share(
                data,
                d.w.column_of(i),
                d.w.row_of(i),
                d.w.channel_of(i),
                side,
            ) <= high,
    ensures
        low <= d.pass(data)[i] <= high,
{
    let (c, r, ch) = (d.w.column_of(i), d.w.row_of(i), d.w.channel_of(i));
    let (a0, a1, a2, a3) = (
        d.share(data, c, r, ch, 0),
        d.share(data, c, r, ch, 1),
        d.share(data, c, r, ch, 2),
        d.share(data, c, r, ch, 3),
    );
    let n = d.used_count(c, r);
    let sum = a0 + a1 + a2 + a3;
    assert(d.used(c, r, 0) ==> low <= a0 <= high);
    assert(d.used(c, r, 1) ==> low <= a1 <= high);
    assert(d.used(c, r, 2) ==> low <= a2 <= high);
    assert(d.used(c, r, 3) ==> low <= a3 <= high);
    assert(n == 2 || n == 4);
    assert(n == 2 ==> 2 * low <= sum <= 2 * high);
    assert(n == 4 ==> 4 * low <= sum <= 4 * high);
    assert(low <= (sum + n / 2) / n <= high);
}

/// A bad pixel between good ones is interpolated from the nearest: as the rounded mean
/// of its four neighbours if all are good; else of the left and the right one; else of
/// the one above and the one below. The samples of good pixels are those of the image as
/// it was.
pub proof fn law_bad_pixels_take_the_mean_of_their_neighbours(
    d: Damage,
    data: Seq<u16>,
    c: int,
    r: int,
    ch: int,
)
    requires
        d.bad.finite(),
        d.w.inside(data.len() as int),
        d.bad.contains((c, r)),
        0 <= c < d.w.columns,
        0 <= r < d.w.rows,
        0 <= ch < d.colors <= d.w.channels,
    ensures
        ({
            let (w, h) = (d.w.columns as int, d.w.rows as int);
            let left = c > 0 && !d.bad.contains((c - 1, r));
            let right = c < w - 1 && !d.bad.contains((c + 1, r));
            let above = r > 0 && !d.bad.contains((c, r - 1));
            let below = r < h - 1 && !d.bad.contains((c, r + 1));
            let i = d.w.offset + r * d.w.row_stride + c * d.w.channels + ch;
            let row = data[i - d.w.channels] + data[i + d.w.channels];
            let column = data[i - d.w.row_stride] + data[i + d.w.row_stride];
            &&& left && right && above && below ==> d.repaired(data)[i] == (row + column + 2) / 4
            &&& left && right && !(above && below) ==> d.repaired(data)[i] == (row + 1) / 2
            &&& above && below && !(left && right) ==> d.repaired(data)[i] == (column + 1) / 2
        }),
{
    let i = d.w.index(r, c, ch);
    d.w.lemma_index(r, c, ch);
    let (k, s) = (d.w.channels as int, d.w.row_stride as int);
    assert((c - 1) * k == c * k - k && (c + 1) * k == c * k + k) by (nonlinear_arith);
    assert((r - 1) * s == r * s - s && (r + 1) * s == r * s + s) by (nonlinear_arith);
    if d.fixable(c, r) {
        assert(d.touches(i));
        law_first_pass_decides(d, data, i);
    }
}

/// Where nothing can be interpolated otherwise, corners are used: if every bad pixel
/// lacks a good neighbour on one side of its row and on one side of its column, one that
/// has a good neighbour in its row and one in its column gets their rounded mean.
pub proof fn law_corners_are_used_last(
    d: Damage,
    data: Seq<u16>,
    c: int,
    r: int,
    dc: int,
    dr: int,
    ch: int,
)
    requires
        d.bad.finite(),
        !d.corner,
        d.w.inside(data.len() as int),
        d.bad.contains((c, r)),
        0 <= c < d.w.columns,
        0 <= r < d.w.rows,
        0 <= ch < d.colors <= d.w.channels,
        forall|p: (int, int)| #[trigger]
            d.bad.contains(p) ==> {
                let (x, y) = p;
                &&& !(0 < x < d.w.columns - 1 && 0 <= y < d.w.rows && !d.bad.contains((x - 1, y))
                    && !d.bad.contains((x + 1, y)))
                &&& !(0 < y < d.w.rows - 1 && 0 <= x < d.w.columns && !d.bad.contains((x, y - 1))
                    && !d.bad.contains((x, y + 1)))
                &&& 0 <= x < d.w.columns
                &&& 0 <= y < d.w.rows
            },
        dc == -1 || dc == 1,
        dr == -1 || dr == 1,
        0 <= c + dc < d.w.columns,
        0 <= r + dr < d.w.rows,
        !d.bad.contains((c + dc, r)),
        !d.bad.contains((c, r + dr)),
    ensures
        ({
            let i = d.w.offset + r * d.w.row_stride + c * d.w.channels + ch;
            let sum = data[i + dc * d.w.channels] + data[i + dr * d.w.row_stride];
            d.repaired(data)[i] == (sum + 1) / 2
        }),
{
    let i = d.w.index(r, c, ch);
    d.w.lemma_index(r, c, ch);
    let (k, s) = (d.w.channels as int, d.w.row_stride as int);
    assert((c + dc) * k == c * k + dc * k) by (nonlinear_arith);
    assert((r + dr) * s == r * s + dr * s) by (nonlinear_arith);
    assert forall|p: (int, int)| d.bad.contains(p) implies !d.fixable(p.0, p.1) by {
        let (x, y) = p;
        assert(!(d.good(x, y, 0) && d.good(x, y, 1)));
        assert(!(d.good(x, y, 2) && d.good(x, y, 3)));
    }
    assert(d.left() =~= d.bad);
    assert(d.bad.len() > 0) by {
        if d.bad.len() == 0 {
            d.bad.lemma_len0_is_empty();
        }
    }
    let e = d.next();
    assert(e == Damage { corner: true, ..d });
    assert(d.repaired(data) == e.repaired(data));
    assert(d.bad.contains((c, r)));
    assert(!(d.good(c, r, 0) && d.good(c, r, 1)));
    assert(!(d.good(c, r, 2) && d.good(c, r, 3)));
    assert(d.good(c, r, if dc == -1 {
        0
    } else {
        1
    }));
    assert(d.good(c, r, if dr == -1 {
        2
    } else {
        3
    }));
    assert(e.good(c, r, 0) == d.good(c, r, 0) && e.good(c, r, 1) == d.good(c, r, 1));
    assert(e.good(c, r, 2) == d.good(c, r, 2) && e.good(c, r, 3) == d.good(c, r, 3));
    assert(e.repair_of(c, r) is Corner);
    assert(e.touches(i));
    law_first_pass_decides(e, data, i);
}

} // verus!
