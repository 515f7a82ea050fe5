//! Highlight repair: what is counted, which bins of the colour table stand for
//! empty ones, and where samples are saturated.

use crate::area::{lemma_cell, Window};
use vstd::prelude::*;

verus! {

/// The number of bins of the colour table.
pub const CHROMA_LUT_BINS: usize = 256;

/// What became of the pixels that the colour table was tried on.
#[allow(non_camel_case_types)]
pub struct chroma_lut_apply_stats_t {
    pub total_eval: u64,
    pub t_strength_kill: u64,
    pub asym_kill: u64,
    pub bm_clip_kill: u64,
    pub bin_evidence_kill: u64,
    pub applied: u64,
    pub bin_kill_hist: [u64; 256],
    pub bin_applied_hist: [u64; 256],
}

/// What became of a pixel.
pub enum LutOutcome {
    /// Its top layer is not saturated.
    Unsaturated,
    /// Its lower layers are too bright.
    Asymmetric,
    /// Its lower layers are saturated.
    Clipped,
    /// The bin of its colour says nothing.
    NoEvidence(usize),
    /// It was repaired from the bin of its colour.
    Applied(usize),
}

impl LutOutcome {
    /// Whether the bin that it names, if any, is one of the table.
    pub open spec fn in_range(self) -> bool {
        match self {
            LutOutcome::NoEvidence(b) => b < 256,
            LutOutcome::Applied(b) => b < 256,
            _ => true,
        }
    }
}

/// A count after an event.
pub open spec fn counted(before: u64, event: bool) -> int {
    before + (if event {
        1int
    } else {
        0
    })
}

impl chroma_lut_apply_stats_t {
    /// Every pixel is counted once, and every pixel that came to a bin is
    /// counted there too.
    pub open spec fn inv(self) -> bool {
        &&& self.total_eval == self.t_strength_kill + self.asym_kill + self.bm_clip_kill
            + self.bin_evidence_kill + self.applied
        &&& forall|b: int| 0 <= b < 256 ==> #[trigger] self.bin_kill_hist@[b]
            <= self.bin_evidence_kill
        &&& forall|b: int| 0 <= b < 256 ==> #[trigger] self.bin_applied_hist@[b] <= self.applied
    }

    /// Whether these are the counts after one more pixel: it is counted under its
    /// outcome alone and, where that names a bin, in that bin.
    pub open spec fn counts_after(self, before: Self, outcome: LutOutcome) -> bool {
        &&& self.total_eval == before.total_eval + 1
        &&& self.t_strength_kill == counted(before.t_strength_kill, outcome is Unsaturated)
        &&& self.asym_kill == counted(before.asym_kill, outcome is Asymmetric)
        &&& self.bm_clip_kill == counted(before.bm_clip_kill, outcome is Clipped)
        &&& self.bin_evidence_kill == counted(before.bin_evidence_kill, outcome is NoEvidence)
        &&& self.applied == counted(before.applied, outcome is Applied)
        &&& forall|b: int|
            0 <= b < 256 ==> #[trigger] self.bin_kill_hist@[b] == counted(
                before.bin_kill_hist@[b],
                outcome matches LutOutcome::NoEvidence(k) && k == b,
            )
        &&& forall|b: int|
            0 <= b < 256 ==> #[trigger] self.bin_applied_hist@[b] == counted(
                before.bin_applied_hist@[b],
                outcome matches LutOutcome::Applied(k) && k == b,
            )
    }

    /// Nothing is counted yet.
    pub fn new() -> (r: Self)
        ensures
            r.inv(),
            r.total_eval == 0,
    {
        chroma_lut_apply_stats_t {
            total_eval: 0,
            t_strength_kill: 0,
            asym_kill: 0,
            bm_clip_kill: 0,
            bin_evidence_kill: 0,
            applied: 0,
            bin_kill_hist: [0; 256],
            bin_applied_hist: [0; 256],
        }
    }

    /// Counts a pixel.
    pub fn record(&mut self, outcome: LutOutcome)
        requires
            old(self).inv(),
            old(self).total_eval < u64::MAX,
            outcome.in_range(),
        ensures
            final(self).inv(),
            final(self).counts_after(*old(self), outcome),
    {
        self.total_eval = self.total_eval + 1;
        match outcome {
            LutOutcome::Unsaturated => {
                self.t_strength_kill = self.t_strength_kill + 1;
            },
            LutOutcome::Asymmetric => {
                self.asym_kill = self.asym_kill + 1;
            },
            LutOutcome::Clipped => {
                self.bm_clip_kill = self.bm_clip_kill + 1;
            },
            LutOutcome::NoEvidence(b) => {
                self.bin_evidence_kill = self.bin_evidence_kill + 1;
                assert(self.bin_kill_hist@[b as int] < u64::MAX);
                self.bin_kill_hist[b] = self.bin_kill_hist[b] + 1;
            },
            LutOutcome::Applied(b) => {
                self.applied = self.applied + 1;
                assert(self.bin_applied_hist@[b as int] < u64::MAX);
                self.bin_applied_hist[b] = self.bin_applied_hist[b] + 1;
            },
        }
    }
}

/// Settles a pixel on which the colour table was tried, and counts it. Only a
/// repair changes it, and only its top layer. Samples are the bits of real
/// numbers.
pub fn chroma_lut_apply_pixel(
    s: &mut [u64; 3],
    outcome: LutOutcome,
    top: u64,
    stats: Option<&mut chroma_lut_apply_stats_t>,
) -> (r: bool)
    requires
        outcome.in_range(),
        stats is Some ==> stats->0.inv() && stats->0.total_eval < u64::MAX,
    ensures
        r == (outcome is Applied),
        final(s)@ == (if r {
            old(s)@.update(2, top)
        } else {
            old(s)@
        }),
        stats is Some ==> {
            &&& final(stats->0).inv()
            &&& final(stats->0).counts_after(*stats->0, outcome)
        },
{
    let applied: bool = match &outcome {
        LutOutcome::Applied(_) => true,
        _ => false,
    };
    if applied {
        s[2] = top;
    }
    match stats {
        Some(stats) => {
            stats.record(outcome);
        },
        None => {},
    }
    applied
}

/// The sum of the first `n` counts.
pub open spec fn count_sum(counts: Seq<u64>, n: nat) -> int
    decreases n,
{
    if n == 0 {
        0
    } else {
        count_sum(counts, (n - 1) as nat) + counts[n - 1]
    }
}

proof fn lemma_count_sum(before: Seq<u64>, after: Seq<u64>, bin: int, n: nat)
    requires
        forall|b: int| 0 <= b < n ==> #[trigger] after[b] == counted(before[b], b == bin),
    ensures
        count_sum(after, n) == count_sum(before, n) + (if 0 <= bin < n {
            1int
        } else {
            0
        }),
    decreases n,
{
    if n > 0 {
        lemma_count_sum(before, after, bin, (n - 1) as nat);
    }
}

/// The outcomes of all pixels add up to the number of pixels, and the counts of
/// the bins grow with the counts of the outcomes that name a bin.
pub proof fn law_counts_grow_together(
    before: chroma_lut_apply_stats_t,
    after: chroma_lut_apply_stats_t,
    outcome: LutOutcome,
)
    requires
        before.inv(),
        outcome.in_range(),
        after.counts_after(before, outcome),
    ensures
        after.total_eval == before.total_eval + 1,
        after.total_eval == after.t_strength_kill + after.asym_kill + after.bm_clip_kill
            + after.bin_evidence_kill + after.applied,
        outcome is Applied <==> after.applied == before.applied + 1,
        count_sum(after.bin_applied_hist@, 256) - count_sum(before.bin_applied_hist@, 256)
            == after.applied - before.applied,
        count_sum(after.bin_kill_hist@, 256) - count_sum(before.bin_kill_hist@, 256)
            == after.bin_evidence_kill - before.bin_evidence_kill,
{
    let kill = match outcome {
        LutOutcome::NoEvidence(b) => b as int,
        _ => -1,
    };
    let applied = match outcome {
        LutOutcome::Applied(b) => b as int,
        _ => -1,
    };
    lemma_count_sum(before.bin_kill_hist@, after.bin_kill_hist@, kill, 256);
    lemma_count_sum(before.bin_applied_hist@, after.bin_applied_hist@, applied, 256);
}

/// Whether a bin has been filled.
pub open spec fn populated(counts: Seq<u32>, b: int) -> bool {
    0 <= b < counts.len() && counts[b] > 0
}

/// Whether no bin nearer than `d` to bin `c` has been filled.
pub open spec fn none_nearer(counts: Seq<u32>, c: int, d: int) -> bool {
    forall|b: int| c - d < b < c + d ==> !#[trigger] populated(counts, b)
}

/// The bin whose value a bin takes: its own, or the nearest that has been filled
/// within `reach`, of two that are as near the lower one.
pub fn fill_source(counts: &Vec<u32>, c: usize, reach: i32) -> (r: Option<usize>)
    requires
        c < counts@.len() <= 0x1_0000,
    ensures
        match r {
            Some(f) => {
                let d = if f < c {
                    c - f
                } else {
                    f - c
                };
                &&& populated(counts@, f as int)
                &&& d <= reach || d == 0
                &&& none_nearer(counts@, c as int, d)
                &&& f > c ==> !populated(counts@, c - d)
            },
            None => !populated(counts@, c as int) && none_nearer(counts@, c as int, reach + 1),
        },
{
    if counts[c] > 0 {
        return Some(c);
    }
    let n: usize = counts.len();
    let mut d: usize = 1;
    let limit: usize = if reach < 0 {
        0
    } else if reach as usize > n {
        n
    } else {
        reach as usize
    };
    while d <= limit
        invariant
            c < n,
            n == counts@.len(),
            n <= 0x1_0000,
            1 <= d <= limit + 1,
            limit <= n,
            limit <= reach || limit == 0,
            none_nearer(counts@, c as int, d as int),
        decreases limit + 1 - d,
    {
        if c >= d && counts[c - d] > 0 {
            return Some(c - d);
        }
        if c + d < n && counts[c + d] > 0 {
            return Some(c + d);
        }
        d = d + 1;
    }
    proof {
        assert forall|b: int| c - (reach + 1) < b < c + (reach + 1) implies !#[trigger] populated(
            counts@,
            b,
        ) by {
            if 0 <= b < n && !(c - d < b < c + d) {
                assert(false);
            }
        }
    }
    None
}

/// Whether a pixel of a window has a saturated sample in one of its first three
/// channels, by a table of samples per channel.
pub open spec fn is_saturated(
    data: Seq<u16>,
    w: Window,
    tables: Seq<Vec<bool>>,
    row: int,
    col: int,
) -> bool {
    ||| tables[0]@[data[w.index(row, col, 0)] as int]
    ||| tables[1]@[data[w.index(row, col, 1)] as int]
    ||| tables[2]@[data[w.index(row, col, 2)] as int]
}

/// The map of saturated pixels, packed: one where a pixel is saturated, and zero
/// elsewhere.
pub open spec fn sat_map_of(data: Seq<u16>, w: Window, tables: Seq<Vec<bool>>) -> Seq<u8> {
    Seq::new(
        (w.rows * w.columns) as nat,
        |n: int|
            if is_saturated(
                data,
                w,
                tables,
                n / w.columns as int,
                n % w.columns as int,
            ) {
                1
            } else {
                0
            },
    )
}

/// The map of saturated pixels of a window with three channels or more.
pub fn build_sat_map(data: &Vec<u16>, w: &Window, tables: &[Vec<bool>; 3]) -> (r: Option<Vec<u8>>)
    requires
        w.inside(data@.len() as int),
        forall|k: int| 0 <= k < 3 ==> (#[trigger] tables@[k])@.len() == 0x1_0000,
    ensures
        match r {
            Some(map) => w.channels >= 3 && map@ == sat_map_of(data@, *w, tables@),
            None => w.channels < 3,
        },
{
    if w.channels < 3 {
        return None;
    }
    let (rows, cols): (usize, usize) = (w.rows as usize, w.columns as usize);
    let len: usize = data.len();
    let mut out: Vec<u8> = Vec::new();
    let mut row: usize = 0;
    assert(0 * cols == 0);
    assert(tables@[0]@.len() == 0x1_0000 && tables@[1]@.len() == 0x1_0000 && tables@[2]@.len()
        == 0x1_0000);
    while row < rows
        invariant
            row <= rows,
            rows == w.rows,
            cols == w.columns,
            w.inside(len as int),
            w.channels >= 3,
            len == data@.len(),
            tables@[0]@.len() == 0x1_0000,
            tables@[1]@.len() == 0x1_0000,
            tables@[2]@.len() == 0x1_0000,
            out@.len() == row * cols,
            forall|n: int|
                0 <= n < out@.len() ==> #[trigger] out@[n] == sat_map_of(data@, *w, tables@)[n],
        decreases rows - row,
    {
        let mut col: usize = 0;
        while col < cols
            invariant
                row < rows,
                col <= cols,
                rows == w.rows,
                cols == w.columns,
                w.inside(len as int),
                w.channels >= 3,
                len == data@.len(),
                tables@[0]@.len() == 0x1_0000,
                tables@[1]@.len() == 0x1_0000,
                tables@[2]@.len() == 0x1_0000,
                out@.len() == row * cols + col,
                forall|n: int|
                    0 <= n < out@.len() ==> #[trigger] out@[n] == sat_map_of(
                        data@,
                        *w,
                        tables@,
                    )[n],
            decreases cols - col,
        {
            proof {
                lemma_cell(row as int, col as int, rows as int, cols as int);
            }
            let saturated: bool = tables[0][data[w.at(row, col, 0, len)] as usize]
                || tables[1][data[w.at(row, col, 1, len)] as usize]
                || tables[2][data[w.at(row, col, 2, len)] as usize];
            out.push(
                if saturated {
                    1
                } else {
                    0
                },
            );
            col = col + 1;
        }
        assert(row * cols + cols == (row + 1) * cols) by (nonlinear_arith);
        row = row + 1;
    }
    assert(out@ =~= sat_map_of(data@, *w, tables@));
    Some(out)
}

/// The number of entries of the map among the first `n` of the 25 around a pixel.
pub open spec fn around_sum(map: Seq<u8>, cols: int, row: int, col: int, n: nat) -> nat
    decreases n,
{
    if n == 0 {
        0
    } else {
        let k = n - 1;
        around_sum(map, cols, row, col, k as nat) + map[(row - 2 + k / 5) * cols + (col - 2 + k
            % 5)] as nat
    }
}

/// Whether the 25 pixels around a pixel all lie in the image.
pub open spec fn is_interior(row: int, col: int, rows: int, cols: int) -> bool {
    2 <= row < rows - 2 && 2 <= col < cols - 2
}

/// The sum of the map over the 25 pixels around a pixel; zero near the edges.
pub fn sat_sum5(map: &Vec<u8>, rows: usize, cols: usize, row: usize, col: usize) -> (r: u32)
    requires
        map@.len() == rows * cols,
    ensures
        r == (if is_interior(row as int, col as int, rows as int, cols as int) {
            around_sum(map@, cols as int, row as int, col as int, 25)
        } else {
            0
        }),
{
    if row < 2 || col < 2 || rows < 5 || cols < 5 || row >= rows - 2 || col >= cols - 2 {
        return 0;
    }
    let len: usize = map.len();
    let mut sum: u32 = 0;
    let mut k: usize = 0;
    while k < 25
        invariant
            k <= 25,
            is_interior(row as int, col as int, rows as int, cols as int),
            map@.len() == rows * cols,
            len == map@.len(),
            sum == around_sum(map@, cols as int, row as int, col as int, k as nat),
            sum <= k * 255,
        decreases 25 - k,
    {
        let (y, x): (usize, usize) = (row - 2 + k / 5, col - 2 + k % 5);
        proof {
            lemma_cell(y as int, x as int, rows as int, cols as int);
        }
        sum = sum + map[y * cols + x] as u32;
        k = k + 1;
    }
    sum
}

/// The map has one where a pixel is saturated in at least one of its first three
/// channels, each by its own table, and zero elsewhere.
pub proof fn law_the_map_marks_saturated_pixels(
    data: Seq<u16>,
    w: Window,
    tables: Seq<Vec<bool>>,
    row: int,
    col: int,
)
    requires
        w.inside(data.len() as int),
        w.channels >= 3,
        0 <= row < w.rows,
        0 <= col < w.columns,
    ensures
        ({
            let i = w.offset + row * w.row_stride + col * w.channels;
            let map = sat_map_of(data, w, tables);
            &&& map.len() == w.rows * w.columns
            &&& map[row * w.columns + col] == (if exists|ch: int|
                0 <= ch < 3 && (#[trigger] tables[ch])@[data[i + ch] as int] {
                1u8
            } else {
                0u8
            })
        }),
{
    lemma_cell(row, col, w.rows as int, w.columns as int);
    let i = w.index(row, col, 0);
    assert(w.index(row, col, 1) == i + 1 && w.index(row, col, 2) == i + 2);
    if is_saturated(data, w, tables, row, col) {
        let (a, b, c) = (tables[0], tables[1], tables[2]);
        if a@[data[i] as int] {
            assert(tables[0]@[data[i + 0] as int]);
        } else if b@[data[i + 1] as int] {
            assert(tables[1]@[data[i + 1] as int]);
        } else {
            assert(tables[2]@[data[i + 2] as int]);
        }
    }
    if exists|ch: int| 0 <= ch < 3 && (#[trigger] tables[ch])@[data[i + ch] as int] {
        let ch = choose|ch: int| 0 <= ch < 3 && (#[trigger] tables[ch])@[data[i + ch] as int];
        assert(ch == 0 || ch == 1 || ch == 2);
    }
}

/// How the sum around a pixel changes with one entry.
proof fn lemma_around_change(
    map: Seq<u8>,
    other: Seq<u8>,
    rows: int,
    cols: int,
    row: int,
    col: int,
    y: int,
    x: int,
    n: nat,
)
    requires
        map.len() == rows * cols,
        other.len() == map.len(),
        is_interior(row, col, rows, cols),
        0 <= y < rows,
        0 <= x < cols,
        n <= 25,
        forall|i: int| 0 <= i < map.len() && i != y * cols + x ==> #[trigger] other[i] == map[i],
    ensures
        around_sum(other, cols, row, col, n) - around_sum(map, cols, row, col, n) == (if 0 <= y - (
        row - 2) < 5 && 0 <= x - (col - 2) < 5 && 5 * (y - (row - 2)) + x - (col - 2) < n {
            other[y * cols + x] - map[y * cols + x]
        } else {
            0
        }),
    decreases n,
{
    if n > 0 {
        lemma_around_change(map, other, rows, cols, row, col, y, x, (n - 1) as nat);
        let k = n - 1;
        let (r, c) = (row - 2 + k / 5, col - 2 + k % 5);
        lemma_cell(r, c, rows, cols);
        lemma_cell(y, x, rows, cols);
        if r == y && c == x {
            assert(5 * (y - (row - 2)) + x - (col - 2) == k);
        } else {
            assert(r * cols + c != y * cols + x);
            assert(other[r * cols + c] == map[r * cols + c]);
        }
    }
}

/// The sum around a pixel takes in the entries within two rows and columns of it, each
/// once, and no others: if one entry changes, the sum changes by as much if it lies there,
/// and else not at all. Over an empty map it is zero.
pub proof fn law_the_sum_reaches_two_pixels_far(
    map: Seq<u8>,
    other: Seq<u8>,
    rows: int,
    cols: int,
    row: int,
    col: int,
    y: int,
    x: int,
)
    requires
        map.len() == rows * cols,
        other.len() == map.len(),
        is_interior(row, col, rows, cols),
        0 <= y < rows,
        0 <= x < cols,
        forall|i: int| 0 <= i < map.len() && i != y * cols + x ==> #[trigger] other[i] == map[i],
    ensures
        around_sum(other, cols, row, col, 25) - around_sum(map, cols, row, col, 25) == (if -2 <= y
            - row <= 2 && -2 <= x - col <= 2 {
            other[y * cols + x] - map[y * cols + x]
        } else {
            0
        }),
        (forall|i: int| 0 <= i < map.len() ==> #[trigger] map[i] == 0) ==> around_sum(
            map,
            cols,
            row,
            col,
            25,
        ) == 0,
{
    lemma_around_change(map, other, rows, cols, row, col, y, x, 25);
    if forall|i: int| 0 <= i < map.len() ==> #[trigger] map[i] == 0 {
        lemma_around_zero(map, rows, cols, row, col, 25);
    }
}

proof fn lemma_around_zero(map: Seq<u8>, rows: int, cols: int, row: int, col: int, n: nat)
    requires
        map.len() == rows * cols,
        is_interior(row, col, rows, cols),
        n <= 25,
        forall|i: int| 0 <= i < map.len() ==> #[trigger] map[i] == 0,
    ensures
        around_sum(map, cols, row, col, n) == 0,
    decreases n,
{
    if n > 0 {
        lemma_around_zero(map, rows, cols, row, col, (n - 1) as nat);
        let k = n - 1;
        let (r, c) = (row - 2 + k / 5, col - 2 + k % 5);
        lemma_cell(r, c, rows, cols);
        assert(map[r * cols + c] == 0);
    }
}

} // verus!
