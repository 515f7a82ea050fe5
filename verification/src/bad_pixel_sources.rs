//! Where the metadata name bad pixels.

use crate::bad_pixels::{spec_inb, BadPixels};
use crate::camf::{CamfMatrix, MatrixData};
use crate::image::{camf_four, get_camf_four, keep_area};
use crate::io::X3f;
use crate::meta::{
    camf_matrix_var, camf_unsigned, x3f_get_camf_matrix_var, x3f_get_camf_unsigned, MatrixType,
};
use vstd::prelude::*;
use vstd::string::StringSliceAdditionalSpecFns;

verus! {

/// The camera number of the sd Quattro.
pub const X3F_CAMERAID_SDQ: u32 = 40;

/// The camera number of the sd Quattro H.
pub const X3F_CAMERAID_SDQH: u32 = 41;

/// The pixels of a set that lie in an image of this size.
pub open spec fn clipped(pixels: Set<(int, int)>, columns: int, rows: int) -> Set<(int, int)> {
    pixels.filter(|p: (int, int)| spec_inb(p.0, p.1, columns, rows))
}

/// One more pixel of a list.
proof fn lemma_list_step(list: Seq<(int, int)>, k: int, columns: int, rows: int)
    requires
        0 <= k < list.len(),
    ensures
        clipped(list.take(k + 1).to_set(), columns, rows) == (if spec_inb(
            list[k].0,
            list[k].1,
            columns,
            rows,
        ) {
            clipped(list.take(k).to_set(), columns, rows).insert(list[k])
        } else {
            clipped(list.take(k).to_set(), columns, rows)
        }),
{
    assert(list.take(k + 1) =~= list.take(k).push(list[k]));
    list.take(k).lemma_push_to_set_commute(list[k]);
    let (a, b) = (
        clipped(list.take(k + 1).to_set(), columns, rows),
        clipped(list.take(k).to_set(), columns, rows),
    );
    if spec_inb(list[k].0, list[k].1, columns, rows) {
        assert(a =~= b.insert(list[k]));
    } else {
        assert(a =~= b);
    }
}

/// The unsigned numbers of the matrix with this name and number of dimensions.
pub open spec fn uint_matrix(x3f: X3f, name: Seq<u8>, dims: int) -> Option<CamfMatrix> {
    camf_matrix_var(x3f, name, dims, MatrixType::Uint)
}

/// The pixels of the list "BadPixels": column and row are packed into one
/// number, and counted from the corner of the sensor.
pub open spec fn packed_pixels(v: Seq<u32>, keep: Seq<u32>) -> Seq<(int, int)> {
    v.map_values(
        |x: u32|
            (((x / 256) % 4096) - (keep[0] as i32), (x / 0x10_0000) - (keep[1] as i32)),
    )
}

/// The pixels of a list of triples that begin with row and column.
pub open spec fn triple_pixels(v: Seq<u32>) -> Seq<(int, int)> {
    Seq::new(v.len() / 3, |k: int| (v[3 * k + 1] as i32 as int, v[3 * k] as i32 as int))
}

/// The pixels of a list of runs: a row, then pairs that begin with a column,
/// then a zero. `row` is -1 where a row is expected.
pub open spec fn run_pixels(v: Seq<u32>, i: int, row: int) -> Seq<(int, int)>
    decreases v.len() + 1 - i,
{
    if !(0 <= i < v.len()) {
        Seq::empty()
    } else {
        let x = v[i] as i32;
        if row == -1 {
            run_pixels(v, i + 1, x as int)
        } else if x == 0 {
            run_pixels(v, i + 1, -1)
        } else {
            seq![(x as int, row)] + run_pixels(v, i + 2, row)
        }
    }
}

/// The first numbers of a matrix of unsigned numbers.
pub open spec fn uints(m: CamfMatrix) -> Seq<u32> {
    m.decoded->Uint_0@
}

/// Marks the pixels of the list "BadPixels".
fn mark_packed(bp: &mut BadPixels, v: &Vec<u32>, keep: &[u32; 4])
    requires
        old(bp).inv(),
    ensures
        final(bp).inv(),
        final(bp).columns() == old(bp).columns(),
        final(bp).rows() == old(bp).rows(),
        final(bp).bad() == old(bp).bad().union(
            clipped(
                packed_pixels(v@, keep@).to_set(),
                old(bp).columns(),
                old(bp).rows(),
            ),
        ),
{
    let ghost list = packed_pixels(v@, keep@);
    let ghost (cs, rs) = (bp.columns(), bp.rows());
    let mut i: usize = 0;
    assert(clipped(list.take(0).to_set(), cs, rs) =~= Set::empty());
    assert(bp.bad() =~= old(bp).bad().union(clipped(list.take(0).to_set(), cs, rs)));
    while i < v.len()
        invariant
            i <= v@.len(),
            bp.inv(),
            bp.columns() == cs,
            bp.rows() == rs,
            list == packed_pixels(v@, keep@),
            bp.bad() == old(bp).bad().union(clipped(list.take(i as int).to_set(), cs, rs)),
        decreases v@.len() - i,
    {
        let x: u32 = v[i];
        let c: i64 = ((x / 256) % 4096) as i64 - (keep[0] as i32) as i64;
        let r: i64 = (x / 0x10_0000) as i64 - (keep[1] as i32) as i64;
        proof {
            assert(list[i as int] == (c as int, r as int));
            lemma_list_step(list, i as int, cs, rs);
        }
        bp.mark_pix(c, r);
        i = i + 1;
        assert(bp.bad() =~= old(bp).bad().union(clipped(list.take(i as int).to_set(), cs, rs)));
    }
    assert(list.take(v@.len() as int) =~= list);
}

/// Marks the pixels of a list of triples.
fn mark_triples(bp: &mut BadPixels, v: &Vec<u32>)
    requires
        old(bp).inv(),
    ensures
        final(bp).inv(),
        final(bp).columns() == old(bp).columns(),
        final(bp).rows() == old(bp).rows(),
        final(bp).bad() == old(bp).bad().union(
            clipped(triple_pixels(v@).to_set(), old(bp).columns(), old(bp).rows()),
        ),
{
    let ghost list = triple_pixels(v@);
    let ghost (cs, rs) = (bp.columns(), bp.rows());
    let mut i: usize = 0;
    let n: usize = v.len();
    assert(clipped(list.take(0).to_set(), cs, rs) =~= Set::empty());
    assert(bp.bad() =~= old(bp).bad().union(clipped(list.take(0).to_set(), cs, rs)));
    while i < n / 3
        invariant
            i <= n / 3,
            n == v@.len(),
            bp.inv(),
            bp.columns() == cs,
            bp.rows() == rs,
            list == triple_pixels(v@),
            bp.bad() == old(bp).bad().union(clipped(list.take(i as int).to_set(), cs, rs)),
        decreases v@.len() - i,
    {
        let c: i32 = v[3 * i + 1] as i32;
        let r: i32 = v[3 * i] as i32;
        proof {
            assert(list[i as int] == (c as int, r as int));
            lemma_list_step(list, i as int, cs, rs);
        }
        bp.mark_pix(c as i64, r as i64);
        i = i + 1;
        assert(bp.bad() =~= old(bp).bad().union(clipped(list.take(i as int).to_set(), cs, rs)));
    }
    assert(list.take((v@.len() / 3) as int) =~= list);
}

/// Marks the pixels of a list of runs.
fn mark_runs(bp: &mut BadPixels, v: &Vec<u32>)
    requires
        old(bp).inv(),
    ensures
        final(bp).inv(),
        final(bp).columns() == old(bp).columns(),
        final(bp).rows() == old(bp).rows(),
        final(bp).bad() == old(bp).bad().union(
            clipped(run_pixels(v@, 0, -1).to_set(), old(bp).columns(), old(bp).rows()),
        ),
{
    let ghost (cs, rs) = (bp.columns(), bp.rows());
    let ghost whole = clipped(run_pixels(v@, 0, -1).to_set(), cs, rs);
    let mut row: i32 = -1;
    let mut i: usize = 0;
    let n: usize = v.len();
    while i < n
        invariant
            n == v@.len(),
            bp.inv(),
            bp.columns() == cs,
            bp.rows() == rs,
            bp.bad().union(clipped(run_pixels(v@, i as int, row as int).to_set(), cs, rs))
                == old(bp).bad().union(whole),
        decreases v@.len() - i,
    {
        let x: i32 = v[i] as i32;
        if row == -1 {
            row = x;
            i = i + 1;
        } else if x == 0 {
            row = -1;
            i = i + 1;
        } else {
            let ghost before = bp.bad();
            let ghost p = (x as int, row as int);
            let ghost rest = run_pixels(v@, i + 2, row as int);
            bp.mark_pix(x as i64, row as i64);
            proof {
                assert(run_pixels(v@, i as int, row as int) == seq![p] + rest);
                assert forall|q: (int, int)| #[trigger]
                    (seq![p] + rest).to_set().contains(q) == (q == p || rest.to_set().contains(q)) by {
                    assert((seq![p] + rest)[0] == p);
                    if rest.to_set().contains(q) {
                        let j = choose|j: int| 0 <= j < rest.len() && rest[j] == q;
                        assert((seq![p] + rest)[j + 1] == q);
                    }
                }
                assert(bp.bad().union(clipped(rest.to_set(), cs, rs)) =~= before.union(
                    clipped((seq![p] + rest).to_set(), cs, rs),
                ));
            }
            if i < n - 1 {
                i = i + 2;
            } else {
                proof {
                    assert(rest =~= Seq::<(int, int)>::empty());
                    assert(run_pixels(v@, i + 1, row as int) =~= Seq::<(int, int)>::empty());
                }
                i = i + 1;
            }
        }
    }
    assert(clipped(run_pixels(v@, i as int, row as int).to_set(), cs, rs) =~= Set::empty());
    assert(bp.bad() =~= old(bp).bad().union(whole));
}

/// A grid of rectangles: `cs` columns wide and `rs` rows high, from column `ci`
/// to column `cf` every `cp` columns and from row `ri` to row `rf` every `rp`
/// rows.
pub struct Grid {
    pub ci: i64,
    pub cf: i64,
    pub cp: i64,
    pub cs: i64,
    pub ri: i64,
    pub rf: i64,
    pub rp: i64,
    pub rs: i64,
}

/// Whether `x` lies on one of the stretches of length `s` that begin at `i`, at
/// `i + p` and so on, up to `f`.
pub open spec fn on_comb(x: int, i: int, f: int, p: int, s: int) -> bool {
    i <= x && (x - i) % p < s && x - (x - i) % p <= f
}

/// A comb begins at its first stretch.
proof fn lemma_comb_start(p: int)
    requires
        0 < p,
    ensures
        0int % p == 0,
{
    vstd::arithmetic::div_mod::lemma_small_mod(0, p as nat);
}

/// A stretch of a comb.
proof fn lemma_comb(x: int, at: int, i: int, f: int, p: int, s: int)
    requires
        i <= at,
        (at - i) % p == 0,
        0 <= s <= p,
        0 < p,
    ensures
        at <= f && at <= x < at + s ==> on_comb(x, i, f, p, s),
        at <= x < at + p && on_comb(x, i, f, p, s) ==> x < at + s,
        at > f && on_comb(x, i, f, p, s) ==> x < at,
        (at + p - i) % p == 0,
{
    let d = at - i;
    vstd::arithmetic::div_mod::lemma_fundamental_div_mod(d, p);
    let q = d / p;
    assert(d == p * q);
    vstd::arithmetic::div_mod::lemma_mod_add_multiples_vanish(d, p);
    if at <= x < at + p {
        assert(q * p == p * q) by (nonlinear_arith);
        vstd::arithmetic::div_mod::lemma_fundamental_div_mod_converse(x - i, p, q, x - at);
    }
    if at > f && on_comb(x, i, f, p, s) && at <= x {
        vstd::arithmetic::div_mod::lemma_fundamental_div_mod(x - i, p);
        let k = (x - i) / p;
        let m = (x - i) % p;
        assert(k >= q) by (nonlinear_arith)
            requires
                p * k + m == x - i,
                0 <= m < p,
                x - i >= p * q,
                p > 0,
        ;
        assert(p * k >= p * q) by (nonlinear_arith)
            requires
                k >= q,
                p > 0,
        ;
    }
}

impl Grid {
    pub open spec fn inv(self) -> bool {
        &&& 0 < self.cp
        &&& 0 < self.rp
        &&& 0 <= self.cs <= self.cp
        &&& 0 <= self.rs <= self.rp
        &&& -0x1_0000_0000 <= self.ci
        &&& -0x1_0000_0000 <= self.ri
        &&& self.cf <= 0x1_0000_0000
        &&& self.rf <= 0x1_0000_0000
        &&& self.cp <= 0x1_0000_0000
        &&& self.rp <= 0x1_0000_0000
    }

    /// Whether a pixel lies on the grid.
    pub open spec fn has(self, c: int, r: int) -> bool {
        &&& on_comb(c, self.ci as int, self.cf as int, self.cp as int, self.cs as int)
        &&& on_comb(r, self.ri as int, self.rf as int, self.rp as int, self.rs as int)
    }

    pub open spec fn pixels(self) -> Set<(int, int)> {
        Set::new(|p: (int, int)| self.has(p.0, p.1))
    }
}

/// Marks the pixels of a rectangle.
fn mark_rect(bp: &mut BadPixels, col: i64, row: i64, cs: i64, rs: i64)
    requires
        old(bp).inv(),
        -0x4_0000_0000 <= col <= 0x4_0000_0000,
        -0x4_0000_0000 <= row <= 0x4_0000_0000,
        0 <= cs <= 0x4_0000_0000,
        0 <= rs <= 0x4_0000_0000,
    ensures
        final(bp).inv(),
        final(bp).columns() == old(bp).columns(),
        final(bp).rows() == old(bp).rows(),
        forall|p: (int, int)| #[trigger]
            final(bp).bad().contains(p) == (old(bp).bad().contains(p) || spec_inb(
                p.0,
                p.1,
                old(bp).columns(),
                old(bp).rows(),
            ) && col <= p.0 < col + cs && row <= p.1 < row + rs),
{
    let ghost (w, h) = (bp.columns(), bp.rows());
    let mut r: i64 = 0;
    while r < rs
        invariant
            0 <= r <= rs,
            rs <= 0x4_0000_0000,
            0 <= cs <= 0x4_0000_0000,
            -0x4_0000_0000 <= col <= 0x4_0000_0000,
            -0x4_0000_0000 <= row <= 0x4_0000_0000,
            bp.inv(),
            bp.columns() == w,
            bp.rows() == h,
            forall|p: (int, int)| #[trigger]
                bp.bad().contains(p) == (old(bp).bad().contains(p) || spec_inb(p.0, p.1, w, h)
                    && col <= p.0 < col + cs && row <= p.1 < row + r),
        decreases rs - r,
    {
        let mut c: i64 = 0;
        while c < cs
            invariant
                0 <= r < rs,
                0 <= c <= cs,
                rs <= 0x4_0000_0000,
                cs <= 0x4_0000_0000,
                -0x4_0000_0000 <= col <= 0x4_0000_0000,
                -0x4_0000_0000 <= row <= 0x4_0000_0000,
                bp.inv(),
                bp.columns() == w,
                bp.rows() == h,
                forall|p: (int, int)| #[trigger]
                    bp.bad().contains(p) == (old(bp).bad().contains(p) || spec_inb(p.0, p.1, w, h)
                        && col <= p.0 < col + cs && row <= p.1 < row + r || spec_inb(
                        p.0,
                        p.1,
                        w,
                        h,
                    ) && col <= p.0 < col + c && p.1 == row + r),
            decreases cs - c,
        {
            bp.mark_pix(col + c, row + r);
            c = c + 1;
        }
        r = r + 1;
    }
}

/// Marks the pixels of the rectangles of a grid that begin in one row.
fn mark_grid_row(bp: &mut BadPixels, g: &Grid, row: i64)
    requires
        old(bp).inv(),
        g.inv(),
        -0x4_0000_0000 <= row <= 0x4_0000_0000,
    ensures
        final(bp).inv(),
        final(bp).columns() == old(bp).columns(),
        final(bp).rows() == old(bp).rows(),
        forall|p: (int, int)| #[trigger]
            final(bp).bad().contains(p) == (old(bp).bad().contains(p) || spec_inb(
                p.0,
                p.1,
                old(bp).columns(),
                old(bp).rows(),
            ) && on_comb(p.0, g.ci as int, g.cf as int, g.cp as int, g.cs as int) && row <= p.1
                < row + g.rs),
{
    let ghost (w, h) = (bp.columns(), bp.rows());
    let ghost (i, f, q, s) = (g.ci as int, g.cf as int, g.cp as int, g.cs as int);
    let mut col: i64 = g.ci;
    proof {
        lemma_comb_start(q);
    }
    while col <= g.cf
        invariant
            g.inv(),
            -0x4_0000_0000 <= row <= 0x4_0000_0000,
            g.ci <= col,
            (col - g.ci) % g.cp as int == 0,
            (i, f, q, s) == (g.ci as int, g.cf as int, g.cp as int, g.cs as int),
            bp.inv(),
            bp.columns() == w,
            bp.rows() == h,
            forall|p: (int, int)| #[trigger]
                bp.bad().contains(p) == (old(bp).bad().contains(p) || spec_inb(p.0, p.1, w, h)
                    && on_comb(p.0, i, f, q, s) && p.0 < col && row <= p.1 < row + g.rs),
        decreases g.cf + g.cp - col,
    {
        let ghost before = bp.bad();
        mark_rect(bp, col, row, g.cs, g.rs);
        proof {
            assert forall|p: (int, int)| #[trigger]
                bp.bad().contains(p) == (old(bp).bad().contains(p) || spec_inb(p.0, p.1, w, h)
                    && on_comb(p.0, i, f, q, s) && p.0 < col + g.cp && row <= p.1 < row
                    + g.rs) by {
                lemma_comb(p.0, col as int, i, f, q, s);
            }
            lemma_comb(0, col as int, i, f, q, s);
        }
        col = col + g.cp;
    }
    proof {
        assert forall|p: (int, int)| #[trigger]
            bp.bad().contains(p) == (old(bp).bad().contains(p) || spec_inb(p.0, p.1, w, h)
                && on_comb(p.0, i, f, q, s) && row <= p.1 < row + g.rs) by {
            lemma_comb(p.0, col as int, i, f, q, s);
        }
    }
}

/// Marks the pixels of a grid.
fn mark_grid(bp: &mut BadPixels, g: &Grid)
    requires
        old(bp).inv(),
        g.inv(),
    ensures
        final(bp).inv(),
        final(bp).columns() == old(bp).columns(),
        final(bp).rows() == old(bp).rows(),
        final(bp).bad() == old(bp).bad().union(
            clipped(g.pixels(), old(bp).columns(), old(bp).rows()),
        ),
{
    let ghost (w, h) = (bp.columns(), bp.rows());
    let ghost (i, f, q, s) = (g.ri as int, g.rf as int, g.rp as int, g.rs as int);
    let mut row: i64 = g.ri;
    proof {
        lemma_comb_start(q);
    }
    while row <= g.rf
        invariant
            g.inv(),
            g.ri <= row,
            (row - g.ri) % g.rp as int == 0,
            (i, f, q, s) == (g.ri as int, g.rf as int, g.rp as int, g.rs as int),
            bp.inv(),
            bp.columns() == w,
            bp.rows() == h,
            forall|p: (int, int)| #[trigger]
                bp.bad().contains(p) == (old(bp).bad().contains(p) || spec_inb(p.0, p.1, w, h)
                    && g.has(p.0, p.1) && p.1 < row),
        decreases g.rf + g.rp - row,
    {
        mark_grid_row(bp, g, row);
        proof {
            assert forall|p: (int, int)| #[trigger]
                bp.bad().contains(p) == (old(bp).bad().contains(p) || spec_inb(p.0, p.1, w, h)
                    && g.has(p.0, p.1) && p.1 < row + g.rp) by {
                lemma_comb(p.1, row as int, i, f, q, s);
            }
            lemma_comb(0, row as int, i, f, q, s);
        }
        row = row + g.rp;
    }
    proof {
        let all = old(bp).bad().union(clipped(g.pixels(), w, h));
        assert forall|p: (int, int)| #[trigger] bp.bad().contains(p) == all.contains(p) by {
            lemma_comb(p.1, row as int, i, f, q, s);
        }
        assert(bp.bad() =~= all);
    }
}

/// The pixels of the list "BadPixels", if the metadata have it and say which
/// area of the sensor is stored.
pub open spec fn packed_source(x3f: X3f) -> Set<(int, int)> {
    match (keep_area(x3f), uint_matrix(x3f, "BadPixels".spec_bytes(), 1)) {
        (Some(keep), Some(m)) => packed_pixels(uints(m), keep).to_set(),
        _ => Set::empty(),
    }
}

/// The pixels of a list of triples with this name.
pub open spec fn triple_source(x3f: X3f, name: Seq<u8>) -> Set<(int, int)> {
    match uint_matrix(x3f, name, 2) {
        Some(m) => if m.dims@[0].size == 3 {
            triple_pixels(uints(m)).to_set()
        } else {
            Set::empty()
        },
        None => Set::empty(),
    }
}

/// The grid of highlight pixels, through an image of this size.
pub open spec fn highlight_grid(h: Seq<u32>, columns: u32, rows: u32) -> Grid {
    Grid {
        ci: (h[0] as i32) as i64,
        cf: (columns - 1) as i64,
        cp: (h[2] as i32) as i64,
        cs: 1,
        ri: (h[1] as i32) as i64,
        rf: (rows - 1) as i64,
        rp: (h[3] as i32) as i64,
        rs: 1,
    }
}

/// Whether the grid of highlight pixels reaches into an image of this size.
pub open spec fn highlight_reaches(h: Seq<u32>, columns: u32, rows: u32) -> bool {
    (h[0] as i32) < columns && (h[1] as i32) < rows
}

/// The numbers that describe the grid of highlight pixels.
pub open spec fn highlight_info(x3f: X3f) -> Option<Seq<u32>> {
    camf_four(x3f, "HighlightPixelsInfo".spec_bytes(), 2, 2)
}

/// Whether the grid of highlight pixels, where it reaches into an image of this
/// size, goes on to the right and downwards.
pub open spec fn highlight_ok(x3f: X3f, columns: u32, rows: u32) -> bool {
    match highlight_info(x3f) {
        Some(h) => highlight_reaches(h, columns, rows) ==> (h[2] as i32) > 0 && (h[3] as i32) > 0,
        None => true,
    }
}

/// Whether the grid of highlight pixels goes on to the right and downwards.
pub fn check_highlight_grid(x3f: &X3f<'_>, columns: u32, rows: u32) -> (r: bool)
    requires
        x3f.inv(),
    ensures
        r == highlight_ok(*x3f, columns, rows),
{
    match get_camf_four(x3f, "HighlightPixelsInfo".as_bytes(), 2, 2) {
        Some(h) => {
            let reaches: bool = ((h[0] as i32) as i64) < columns as i64 && ((h[1] as i32) as i64)
                < rows as i64;
            !reaches || (h[2] as i32) > 0 && (h[3] as i32) > 0
        },
        None => true,
    }
}

/// The pixels of the grid of highlight pixels.
pub open spec fn highlight_source(x3f: X3f, columns: u32, rows: u32) -> Set<(int, int)> {
    match highlight_info(x3f) {
        Some(h) => if highlight_reaches(h, columns, rows) {
            highlight_grid(h, columns, rows).pixels()
        } else {
            Set::empty()
        },
        None => Set::empty(),
    }
}

/// The pixels of the list of runs for an image with this many colours.
pub open spec fn run_source(x3f: X3f, colors: u32) -> Set<(int, int)> {
    let name = if colors == 1 {
        "BadPixelsLumaF23"
    } else {
        "BadPixelsChromaF23"
    };
    match uint_matrix(x3f, name.spec_bytes(), 1) {
        Some(m) => if colors == 1 || colors == 3 {
            run_pixels(uints(m), 0, -1).to_set()
        } else {
            Set::empty()
        },
        None => Set::empty(),
    }
}

/// The autofocus pixels of a camera, in the full raster of the top layer
/// (`luma`) or in the half raster of the others.
pub open spec fn af_grid(camera: u32, luma: bool) -> Option<Grid> {
    if camera == X3F_CAMERAID_SDQ {
        if luma {
            Some(Grid { ci: 217, cf: 5641, cp: 16, cs: 1, ri: 464, rf: 3312, rp: 32, rs: 2 })
        } else {
            Some(Grid { ci: 108, cf: 2820, cp: 8, cs: 1, ri: 232, rf: 1656, rp: 16, rs: 1 })
        }
    } else if camera == X3F_CAMERAID_SDQH {
        if luma {
            Some(Grid { ci: 233, cf: 6425, cp: 16, cs: 1, ri: 592, rf: 3888, rp: 32, rs: 2 })
        } else {
            Some(Grid { ci: 116, cf: 2820, cp: 8, cs: 1, ri: 296, rf: 1944, rp: 16, rs: 1 })
        }
    } else {
        None
    }
}

/// The autofocus pixels of a camera.
pub fn get_af_grid(camera: u32, luma: bool) -> (r: Option<Grid>)
    ensures
        r == af_grid(camera, luma),
        r is Some ==> r->0.inv(),
{
    if camera == X3F_CAMERAID_SDQ {
        if luma {
            Some(Grid { ci: 217, cf: 5641, cp: 16, cs: 1, ri: 464, rf: 3312, rp: 32, rs: 2 })
        } else {
            Some(Grid { ci: 108, cf: 2820, cp: 8, cs: 1, ri: 232, rf: 1656, rp: 16, rs: 1 })
        }
    } else if camera == X3F_CAMERAID_SDQH {
        if luma {
            Some(Grid { ci: 233, cf: 6425, cp: 16, cs: 1, ri: 592, rf: 3888, rp: 32, rs: 2 })
        } else {
            Some(Grid { ci: 116, cf: 2820, cp: 8, cs: 1, ri: 296, rf: 1944, rp: 16, rs: 1 })
        }
    } else {
        None
    }
}

/// The autofocus pixels of the camera that the metadata name.
pub open spec fn af_source(x3f: X3f, colors: u32) -> Set<(int, int)> {
    match camf_unsigned(x3f, "CAMERAID".spec_bytes(), 0) {
        Some(camera) => match af_grid(camera, colors == 1) {
            Some(g) => g.pixels(),
            None => Set::empty(),
        },
        None => Set::empty(),
    }
}

/// What is listed for images with three colours only.
pub open spec fn color_sources(x3f: X3f, columns: u32, rows: u32) -> Set<(int, int)> {
    packed_source(x3f).union(triple_source(x3f, "BadPixelsF20".spec_bytes())).union(
        triple_source(x3f, "Jpeg_BadClusters".spec_bytes()),
    ).union(highlight_source(x3f, columns, rows))
}

/// All pixels that the metadata name as bad in an image of this size with this
/// many colours.
pub open spec fn bad_pixel_set(x3f: X3f, columns: u32, rows: u32, colors: u32) -> Set<(int, int)> {
    let listed = if colors == 3 {
        color_sources(x3f, columns, rows)
    } else {
        Set::empty()
    };
    clipped(
        listed.union(run_source(x3f, colors)).union(af_source(x3f, colors)),
        columns as int,
        rows as int,
    )
}

/// Marks the pixels of a list of triples with this name.
fn mark_triple_source(bp: &mut BadPixels, x3f: &X3f<'_>, name: &[u8])
    requires
        old(bp).inv(),
        x3f.inv(),
    ensures
        final(bp).inv(),
        final(bp).columns() == old(bp).columns(),
        final(bp).rows() == old(bp).rows(),
        final(bp).bad() == old(bp).bad().union(
            clipped(triple_source(*x3f, name@), old(bp).columns(), old(bp).rows()),
        ),
{
    if let Some(m) = x3f_get_camf_matrix_var(x3f, name, 2, MatrixType::Uint) {
        if m.dims[0].size == 3 {
            if let MatrixData::Uint(v) = &m.decoded {
                mark_triples(bp, v);
                return;
            }
        }
    }
    assert(bp.bad() =~= bp.bad().union(
        clipped(triple_source(*x3f, name@), bp.columns(), bp.rows()),
    ));
}

/// Marks what is listed for images with three colours only.
fn mark_color_sources(bp: &mut BadPixels, x3f: &X3f<'_>, columns: u32, rows: u32)
    requires
        old(bp).inv(),
        x3f.inv(),
        old(bp).columns() == columns,
        old(bp).rows() == rows,
        columns <= i32::MAX,
        rows <= i32::MAX,
        highlight_ok(*x3f, columns, rows),
    ensures
        final(bp).inv(),
        final(bp).columns() == columns,
        final(bp).rows() == rows,
        final(bp).bad() == old(bp).bad().union(
            clipped(color_sources(*x3f, columns, rows), columns as int, rows as int),
        ),
{
    let ghost (w, h) = (columns as int, rows as int);
    let ghost b0 = bp.bad();
    if let Some(keep) = get_camf_four(x3f, "KeepImageArea".as_bytes(), 4, 0) {
        if let Some(m) = x3f_get_camf_matrix_var(x3f, "BadPixels".as_bytes(), 1, MatrixType::Uint) {
            if let MatrixData::Uint(v) = &m.decoded {
                mark_packed(bp, v, &keep);
            }
        }
    }
    assert(bp.bad() =~= b0.union(clipped(packed_source(*x3f), w, h)));
    mark_triple_source(bp, x3f, "BadPixelsF20".as_bytes());
    mark_triple_source(bp, x3f, "Jpeg_BadClusters".as_bytes());
    let ghost b1 = bp.bad();
    if let Some(hp) = get_camf_four(x3f, "HighlightPixelsInfo".as_bytes(), 2, 2) {
        let (c0, r0): (i64, i64) = ((hp[0] as i32) as i64, (hp[1] as i32) as i64);
        if c0 < columns as i64 && r0 < rows as i64 {
            let g: Grid = Grid {
                ci: c0,
                cf: columns as i64 - 1,
                cp: (hp[2] as i32) as i64,
                cs: 1,
                ri: r0,
                rf: rows as i64 - 1,
                rp: (hp[3] as i32) as i64,
                rs: 1,
            };
            assert(g == highlight_grid(hp@, columns, rows));
            mark_grid(bp, &g);
        }
    }
    proof {
        assert(bp.bad() =~= b1.union(clipped(highlight_source(*x3f, columns, rows), w, h)));
        assert(bp.bad() =~= b0.union(clipped(color_sources(*x3f, columns, rows), w, h)));
    }
}

/// All pixels that the metadata name as bad in an image of this size with this
/// many colours.
pub fn collect_bad_pixels(x3f: &X3f<'_>, columns: u32, rows: u32, colors: u32) -> (bp: BadPixels)
    requires
        x3f.inv(),
        rows * columns <= i32::MAX,
        columns <= i32::MAX,
        rows <= i32::MAX,
        colors == 3 ==> highlight_ok(*x3f, columns, rows),
    ensures
        bp.inv(),
        bp.columns() == columns,
        bp.rows() == rows,
        bp.bad() == bad_pixel_set(*x3f, columns, rows, colors),
{
    let ghost (w, h) = (columns as int, rows as int);
    let mut bp: BadPixels = BadPixels::new(columns, rows);
    if colors == 3 {
        mark_color_sources(&mut bp, x3f, columns, rows);
    }
    let ghost listed = if colors == 3 {
        color_sources(*x3f, columns, rows)
    } else {
        Set::empty()
    };
    assert(bp.bad() =~= clipped(listed, w, h));
    if colors == 1 || colors == 3 {
        let name: &str = if colors == 1 {
            "BadPixelsLumaF23"
        } else {
            "BadPixelsChromaF23"
        };
        if let Some(m) = x3f_get_camf_matrix_var(x3f, name.as_bytes(), 1, MatrixType::Uint) {
            if let MatrixData::Uint(v) = &m.decoded {
                mark_runs(&mut bp, v);
            }
        }
    }
    assert(bp.bad() =~= clipped(listed.union(run_source(*x3f, colors)), w, h));
    let mut camera: u32 = 0;
    if x3f_get_camf_unsigned(x3f, "CAMERAID".as_bytes(), &mut camera) {
        if let Some(g) = get_af_grid(camera, colors == 1) {
            mark_grid(&mut bp, &g);
        }
    }
    assert(bp.bad() =~= bad_pixel_set(*x3f, columns, rows, colors));
    bp
}

/// A packed number names the pixel of its column, in twelve bits above the lowest eight,
/// and its row, in the highest twelve, from the corner of the stored area.
pub proof fn law_packed_numbers_name_pixels(
    x3f: X3f,
    columns: u32,
    rows: u32,
    m: CamfMatrix,
    keep: Seq<u32>,
    k: int,
    column: int,
    row: int,
    low: int,
)
    requires
        keep_area(x3f) == Some(keep),
        uint_matrix(x3f, "BadPixels".spec_bytes(), 1) == Some(m),
        0 <= k < uints(m).len(),
        0 <= column < 4096,
        0 <= row < 4096,
        0 <= low < 256,
        uints(m)[k] == row * 0x10_0000 + column * 0x100 + low,
        keep[0] < 0x8000_0000,
        keep[1] < 0x8000_0000,
        0 <= column - keep[0] < columns,
        0 <= row - keep[1] < rows,
    ensures
        bad_pixel_set(x3f, columns, rows, 3).contains((column - keep[0], row - keep[1])),
{
    let list = packed_pixels(uints(m), keep);
    let p = (column - keep[0], row - keep[1]);
    assert(list[k] == p);
    assert(list.contains(p));
    assert(packed_source(x3f).contains(p));
}

/// A triple names the pixel of its second number, as column, and its first, as row.
pub proof fn law_triples_name_pixels(
    x3f: X3f,
    columns: u32,
    rows: u32,
    clusters: bool,
    m: CamfMatrix,
    k: int,
)
    requires
        uint_matrix(
            x3f,
            if clusters {
                "Jpeg_BadClusters".spec_bytes()
            } else {
                "BadPixelsF20".spec_bytes()
            },
            2,
        ) == Some(m),
        m.dims@[0].size == 3,
        0 <= k,
        3 * k + 2 < uints(m).len(),
        uints(m)[3 * k + 1] < columns <= 0x7fff_ffff,
        uints(m)[3 * k] < rows <= 0x7fff_ffff,
    ensures
        bad_pixel_set(x3f, columns, rows, 3).contains(
            (uints(m)[3 * k + 1] as int, uints(m)[3 * k] as int),
        ),
{
    let v = uints(m);
    let list = triple_pixels(v);
    let p = (v[3 * k + 1] as int, v[3 * k] as int);
    assert(list[k] == p);
    assert(list.contains(p));
}

/// A run is a row, a pair for each of its pixels that begins with the column, and a zero;
/// the next run follows it.
pub proof fn law_runs_name_pixels(v: Seq<u32>, i: int, row: u32, pixels: Seq<u32>)
    requires
        0 <= i,
        i + 2 * pixels.len() + 2 <= v.len(),
        v[i] == row,
        row < 0x8000_0000,
        forall|k: int|
            0 <= k < pixels.len() ==> 0 < #[trigger] pixels[k] < 0x8000_0000 && v[i + 1 + 2 * k]
                == pixels[k],
        v[i + 1 + 2 * pixels.len()] == 0,
    ensures
        run_pixels(v, i, -1) == pixels.map_values(|c: u32| (c as int, row as int)) + run_pixels(
            v,
            i + 2 + 2 * pixels.len(),
            -1,
        ),
{
    lemma_run(v, i + 1, row, pixels);
}

proof fn lemma_run(v: Seq<u32>, i: int, row: u32, pixels: Seq<u32>)
    requires
        0 <= i,
        i + 2 * pixels.len() + 1 <= v.len(),
        row < 0x8000_0000,
        forall|k: int|
            0 <= k < pixels.len() ==> 0 < #[trigger] pixels[k] < 0x8000_0000 && v[i + 2 * k]
                == pixels[k],
        v[i + 2 * pixels.len()] == 0,
    ensures
        run_pixels(v, i, row as int) == pixels.map_values(|c: u32| (c as int, row as int))
            + run_pixels(v, i + 1 + 2 * pixels.len(), -1),
    decreases pixels.len(),
{
    let pair = |c: u32| (c as int, row as int);
    if pixels.len() == 0 {
        assert(run_pixels(v, i, row as int) =~= pixels.map_values(pair) + run_pixels(v, i + 1, -1));
    } else {
        let rest = pixels.skip(1);
        let c = pixels[0];
        assert(v[i + 2 * 0] == c);
        assert forall|k: int|
            0 <= k < rest.len() implies 0 < #[trigger] rest[k] < 0x8000_0000 && v[i + 2 + 2 * k]
            == rest[k] by {
            assert(rest[k] == pixels[k + 1]);
            assert(i + 2 + 2 * k == i + 2 * (k + 1));
        }
        lemma_run(v, i + 2, row, rest);
        assert(i + 2 + 1 + 2 * rest.len() == i + 1 + 2 * pixels.len());
        assert(seq![pair(c)] + rest.map_values(pair) =~= pixels.map_values(pair));
        assert(run_pixels(v, i, row as int) =~= pixels.map_values(pair) + run_pixels(
            v,
            i + 1 + 2 * pixels.len(),
            -1,
        ));
    }
}

/// The pixels of the runs are bad in the layers that their list is for: the top layer, or
/// the image of three colours.
pub proof fn law_pixels_of_runs_are_bad(
    x3f: X3f,
    columns: u32,
    rows: u32,
    luma: bool,
    m: CamfMatrix,
    j: int,
)
    requires
        uint_matrix(
            x3f,
            if luma {
                "BadPixelsLumaF23".spec_bytes()
            } else {
                "BadPixelsChromaF23".spec_bytes()
            },
            1,
        ) == Some(m),
        0 <= j < run_pixels(uints(m), 0, -1).len(),
        ({
            let p = run_pixels(uints(m), 0, -1)[j];
            0 <= p.0 < columns && 0 <= p.1 < rows
        }),
    ensures
        bad_pixel_set(
            x3f,
            columns,
            rows,
            if luma {
                1
            } else {
                3
            },
        ).contains(run_pixels(uints(m), 0, -1)[j]),
{
    let list = run_pixels(uints(m), 0, -1);
    assert(list.contains(list[j]));
}

/// A pixel lies on a grid if and only if it lies in one of its rectangles, which begin at
/// whole numbers of steps from the first one, and not behind the last column and row.
pub proof fn law_grids_are_made_of_rectangles(g: Grid, c: int, r: int)
    requires
        g.inv(),
    ensures
        g.has(c, r) <==> exists|m: int, n: int|
            m >= 0 && n >= 0 && is_in_rectangle(g, m, n, c, r),
{
    if g.has(c, r) {
        let (x, y) = (c - g.ci, r - g.ri);
        vstd::arithmetic::div_mod::lemma_fundamental_div_mod(x, g.cp as int);
        vstd::arithmetic::div_mod::lemma_fundamental_div_mod(y, g.rp as int);
        vstd::arithmetic::div_mod::lemma_mod_bound(x, g.cp as int);
        vstd::arithmetic::div_mod::lemma_mod_bound(y, g.rp as int);
        let (m, n) = (x / g.cp as int, y / g.rp as int);
        assert(m >= 0) by (nonlinear_arith)
            requires
                x >= 0,
                g.cp > 0,
                m == x / g.cp as int,
        ;
        assert(n >= 0) by (nonlinear_arith)
            requires
                y >= 0,
                g.rp > 0,
                n == y / g.rp as int,
        ;
        assert(m * g.cp == g.cp * m && n * g.rp == g.rp * n) by (nonlinear_arith);
        assert(is_in_rectangle(g, m, n, c, r));
    }
    if exists|m: int, n: int| m >= 0 && n >= 0 && is_in_rectangle(g, m, n, c, r) {
        let (m, n) = choose|m: int, n: int| m >= 0 && n >= 0 && is_in_rectangle(g, m, n, c, r);
        let (x, y) = (c - g.ci, r - g.ri);
        assert(0 <= m * g.cp && 0 <= n * g.rp) by (nonlinear_arith)
            requires
                m >= 0,
                n >= 0,
                g.cp > 0,
                g.rp > 0,
        ;
        vstd::arithmetic::div_mod::lemma_fundamental_div_mod_converse(
            x,
            g.cp as int,
            m,
            x - m * g.cp,
        );
        vstd::arithmetic::div_mod::lemma_fundamental_div_mod_converse(
            y,
            g.rp as int,
            n,
            y - n * g.rp,
        );
    }
}

/// Whether a pixel lies in the rectangle of a grid that begins `m` steps to the right of
/// the first one and `n` below it.
pub open spec fn is_in_rectangle(g: Grid, m: int, n: int, c: int, r: int) -> bool {
    &&& g.ci + m * g.cp <= g.cf
    &&& g.ci + m * g.cp <= c < g.ci + m * g.cp + g.cs
    &&& g.ri + n * g.rp <= g.rf
    &&& g.ri + n * g.rp <= r < g.ri + n * g.rp + g.rs
}

/// The highlight pixels, from the first one on every so many columns and rows, are bad in
/// an image of three colours.
pub proof fn law_highlight_pixels_are_bad(
    x3f: X3f,
    columns: u32,
    rows: u32,
    h: Seq<u32>,
    m: int,
    n: int,
)
    requires
        highlight_info(x3f) == Some(h),
        h[0] < 0x8000_0000,
        h[1] < 0x8000_0000,
        0 < h[2] < 0x8000_0000,
        0 < h[3] < 0x8000_0000,
        m >= 0,
        n >= 0,
        h[0] + m * h[2] < columns <= 0x7fff_ffff,
        h[1] + n * h[3] < rows <= 0x7fff_ffff,
    ensures
        bad_pixel_set(x3f, columns, rows, 3).contains((h[0] + m * h[2], h[1] + n * h[3])),
{
    let g = highlight_grid(h, columns, rows);
    let (c, r) = (h[0] + m * h[2], h[1] + n * h[3]);
    assert(0 <= m * h[2] && 0 <= n * h[3]) by (nonlinear_arith)
        requires
            m >= 0,
            n >= 0,
            h[2] > 0,
            h[3] > 0,
    ;
    assert(is_in_rectangle(g, m, n, c, r));
    law_grids_are_made_of_rectangles(g, c, r);
    assert(g.pixels().contains((c, r)));
}

} // verus!
