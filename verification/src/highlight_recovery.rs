//! How far the samples of the sensor can be relied on, for the repair of
//! highlights.

use crate::area::lemma_cell;
use crate::camf::MatrixData;
use crate::io::X3f;
use crate::meta::{
    bytes_eq, camf_matrix_var, prop_entry, x3f_get_camf_matrix_var, x3f_get_prop_entry,
    MatrixType,
};
use vstd::prelude::*;
use vstd::string::StringSliceAdditionalSpecFns;

verus! {

/// The reliability of every sample before anything is done to it: 255 is healthy,
/// zero is clipped, and what lies between describes the shoulder of the sensor.
pub struct SensorReliability {
    pub rows: usize,
    pub cols: usize,
    /// The pixels, packed, by bottom, middle and top layer.
    pub data: Vec<[u8; 3]>,
    /// Which layers the camera's own maps mark clipped samples in, as bits.
    pub camera_map_channels: u8,
}

/// The sum of the first `n` words.
pub open spec fn word_sum(words: Seq<u32>, n: nat) -> nat
    decreases n,
{
    if n == 0 {
        0
    } else {
        word_sum(words, (n - 1) as nat) + words[n - 1] as nat
    }
}

/// The sum of every other one of the first `2 * n` words, from the second on.
pub open spec fn flagged_sum(words: Seq<u32>, n: nat) -> nat
    decreases n,
{
    if n == 0 {
        0
    } else {
        flagged_sum(words, (n - 1) as nat) + words[2 * n - 1] as nat
    }
}

/// Whether a map of runs marks pixel `i` with one of its first `n` runs. The words
/// are, in turn, the length of a clear span and of a clipped one.
pub open spec fn marks(words: Seq<u32>, n: int, i: int) -> bool {
    exists|k: int|
        0 <= k < n && word_sum(words, (2 * k + 1) as nat) <= i && i < #[trigger] word_sum(
            words,
            (2 * k + 2) as nat,
        )
}

/// Whether a map of runs marks pixel `i`.
pub open spec fn marked(words: Seq<u32>, i: int) -> bool {
    marks(words, (words.len() / 2) as int, i)
}

/// The bit of a layer.
pub open spec fn layer_bit(channel: int) -> u8 {
    if channel == 0 {
        1
    } else if channel == 1 {
        2
    } else {
        4
    }
}

/// Whether a map of runs fits an image of this many pixels.
pub open spec fn runs_fit(words: Seq<u32>, pixels: nat) -> bool {
    word_sum(words, words.len()) <= pixels
}

/// Longer runs of words have larger sums.
proof fn lemma_word_sum(words: Seq<u32>, a: nat, b: nat)
    requires
        a <= b <= words.len(),
    ensures
        word_sum(words, a) <= word_sum(words, b),
    decreases b - a,
{
    if a < b {
        lemma_word_sum(words, a, (b - 1) as nat);
    }
}

/// No more pixels are marked than there are.
proof fn lemma_flagged(words: Seq<u32>, n: nat)
    requires
        2 * n <= words.len(),
    ensures
        flagged_sum(words, n) <= word_sum(words, 2 * n),
    decreases n,
{
    if n > 0 {
        lemma_flagged(words, (n - 1) as nat);
        assert(word_sum(words, 2 * n) == word_sum(words, (2 * n - 1) as nat) + words[2 * n - 1]);
        assert(word_sum(words, (2 * n - 1) as nat) == word_sum(words, (2 * n - 2) as nat)
            + words[2 * n - 2]);
    }
}

impl SensorReliability {
    pub open spec fn inv(self) -> bool {
        self.data@.len() == self.rows * self.cols
    }

    /// An image in which every sample is healthy, if it has pixels and can be
    /// addressed.
    pub fn new(rows: usize, cols: usize) -> (r: Option<Self>)
        ensures
            match r {
                Some(s) => {
                    &&& 0 < rows * cols
                    &&& rows * cols * 3 <= isize::MAX
                    &&& s.rows == rows
                    &&& s.cols == cols
                    &&& s.inv()
                    &&& forall|i: int|
                        0 <= i < s.data@.len() ==> (#[trigger] s.data@[i])@ == seq![
                            255u8,
                            255u8,
                            255u8,
                        ]
                    &&& s.camera_map_channels == 0
                },
                None => rows * cols == 0 || rows * cols * 3 > isize::MAX,
            },
    {
        let count: usize = match rows.checked_mul(cols) {
            Some(count) => count,
            None => {
                return None;
            },
        };
        if count == 0 || count > isize::MAX as usize / 3 {
            return None;
        }
        let healthy: [u8; 3] = [255, 255, 255];
        assert(healthy@ =~= seq![255u8, 255u8, 255u8]);
        let data: Vec<[u8; 3]> = vec![healthy; count];
        Some(SensorReliability { rows, cols, data, camera_map_channels: 0 })
    }

    /// Marks a run of pixels as clipped in one layer.
    fn clip_run(&mut self, start: usize, end: usize, channel: usize)
        requires
            start <= end <= old(self).data@.len(),
            channel < 3,
        ensures
            final(self).rows == old(self).rows,
            final(self).cols == old(self).cols,
            final(self).camera_map_channels == old(self).camera_map_channels,
            final(self).data@.len() == old(self).data@.len(),
            forall|i: int, c: int|
                0 <= i < old(self).data@.len() && 0 <= c < 3 ==> #[trigger] final(self).data@[i]@[c]
                    == (if start <= i < end && c == channel {
                    0
                } else {
                    old(self).data@[i]@[c]
                }),
    {
        let mut i: usize = start;
        while i < end
            invariant
                start <= i <= end <= self.data@.len(),
                channel < 3,
                self.rows == old(self).rows,
                self.cols == old(self).cols,
                self.camera_map_channels == old(self).camera_map_channels,
                self.data@.len() == old(self).data@.len(),
                forall|k: int, c: int|
                    0 <= k < self.data@.len() && 0 <= c < 3 ==> #[trigger] self.data@[k]@[c] == (
                    if start <= k < i && c == channel {
                        0
                    } else {
                        old(self).data@[k]@[c]
                    }),
            decreases end - i,
        {
            let p: [u8; 3] = self.data[i];
            let q: [u8; 3] = if channel == 0 {
                [0, p[1], p[2]]
            } else if channel == 1 {
                [p[0], 0, p[2]]
            } else {
                [p[0], p[1], 0]
            };
            let ghost before = self.data@;
            self.data.set(i, q);
            proof {
                assert forall|k: int, c: int| 0 <= k < self.data@.len() && 0 <= c
                    < 3 implies #[trigger] self.data@[k]@[c] == (if start <= k < i + 1 && c
                    == channel {
                    0
                } else {
                    old(self).data@[k]@[c]
                }) by {
                    if k != i {
                        assert(self.data@[k] == before[k]);
                        assert(before[k]@[c] == (if start <= k < i && c == channel {
                            0
                        } else {
                            old(self).data@[k]@[c]
                        }));
                    } else {
                        assert(before[k]@[c] == old(self).data@[k]@[c]);
                    }
                }
            }
            i = i + 1;
        }
    }

    /// Marks the pixels of a map of runs as clipped in one layer, and says how
    /// many there are. A map that does not fit the image changes nothing.
    pub fn merge_camera_runs(&mut self, runs: &[u32], channel: usize) -> (r: Option<usize>)
        ensures
            final(self).rows == old(self).rows,
            final(self).cols == old(self).cols,
            final(self).data@.len() == old(self).data@.len(),
            match r {
                Some(n) => {
                    &&& channel < 3
                    &&& runs_fit(runs@, old(self).data@.len())
                    &&& n == flagged_sum(runs@, runs@.len() / 2)
                    &&& forall|i: int, c: int|
                        0 <= i < old(self).data@.len() && 0 <= c < 3 ==> #[trigger] final(self).data@[i]@[c]
                            == (if c == channel && marked(runs@, i) {
                            0
                        } else {
                            old(self).data@[i]@[c]
                        })
                    &&& final(self).camera_map_channels == (if n != 0 {
                        old(self).camera_map_channels | layer_bit(channel as int)
                    } else {
                        old(self).camera_map_channels
                    })
                    &&& forall|i: int, c: int|
                        0 <= i < old(self).data@.len() && 0 <= c < 3 ==> #[trigger] final(self).data@[i]@[c]
                            <= old(self).data@[i]@[c]
                },
                None => {
                    &&& channel >= 3 || !runs_fit(runs@, old(self).data@.len())
                    &&& *final(self) == *old(self)
                },
            },
    {
        if channel >= 3 {
            return None;
        }
        let len: usize = self.data.len();
        let n: usize = runs.len();
        // The whole map is measured before anything is marked.
        let mut end: usize = 0;
        let mut i: usize = 0;
        while i < n
            invariant
                i <= n,
                n == runs@.len(),
                len == self.data@.len(),
                *self == *old(self),
                end == word_sum(runs@, i as nat),
                end <= len,
            decreases n - i,
        {
            proof {
                lemma_word_sum(runs@, (i + 1) as nat, n as nat);
            }
            let word: usize = runs[i] as usize;
            if word > len - end {
                return None;
            }
            end = end + word;
            i = i + 1;
        }
        let pairs: usize = n / 2;
        let mut flagged: usize = 0;
        let mut at: usize = 0;
        let mut k: usize = 0;
        while k < pairs
            invariant
                k <= pairs,
                pairs == n / 2,
                n == runs@.len(),
                channel < 3,
                len == old(self).data@.len(),
                runs_fit(runs@, len as nat),
                self.rows == old(self).rows,
                self.cols == old(self).cols,
                self.camera_map_channels == old(self).camera_map_channels,
                self.data@.len() == len,
                at == word_sum(runs@, (2 * k) as nat),
                flagged == flagged_sum(runs@, k as nat),
                flagged <= at <= len,
                forall|i: int, c: int|
                    0 <= i < len && 0 <= c < 3 ==> #[trigger] self.data@[i]@[c] == (if c == channel
                        && marks(runs@, k as int, i) {
                        0
                    } else {
                        old(self).data@[i]@[c]
                    }),
            decreases pairs - k,
        {
            let ghost before = *self;
            proof {
                let w = runs@;
                assert(word_sum(w, (2 * k + 1) as nat) == word_sum(w, (2 * k) as nat) + w[2
                    * k as int]);
                assert(word_sum(w, (2 * k + 2) as nat) == word_sum(w, (2 * k + 1) as nat) + w[2 * k
                    + 1]);
                lemma_word_sum(w, (2 * k + 2) as nat, n as nat);
            }
            let start: usize = at + runs[2 * k] as usize;
            let end: usize = start + runs[2 * k + 1] as usize;
            self.clip_run(start, end, channel);
            proof {
                assert forall|i: int, c: int| 0 <= i < len && 0 <= c < 3 implies #[trigger]
                self.data@[i]@[c] == (if c == channel && marks(runs@, k + 1, i) {
                    0
                } else {
                    old(self).data@[i]@[c]
                }) by {
                    assert(before.data@[i]@[c] == (if c == channel && marks(runs@, k as int, i) {
                        0
                    } else {
                        old(self).data@[i]@[c]
                    }));
                    lemma_marks_step(runs@, k as int, i);
                }
            }
            flagged = flagged + runs[2 * k + 1] as usize;
            at = end;
            k = k + 1;
        }
        if flagged != 0 {
            let bit: u8 = if channel == 0 {
                1
            } else if channel == 1 {
                2
            } else {
                4
            };
            self.camera_map_channels = self.camera_map_channels | bit;
        }
        Some(flagged)
    }
}

/// One more run.
proof fn lemma_marks_step(words: Seq<u32>, n: int, i: int)
    requires
        0 <= n,
    ensures
        marks(words, n + 1, i) == (marks(words, n, i) || word_sum(words, (2 * n + 1) as nat) <= i
            < word_sum(words, (2 * n + 2) as nat)),
{
    if marks(words, n, i) {
        let k = choose|k: int|
            0 <= k < n && word_sum(words, (2 * k + 1) as nat) <= i && i < #[trigger] word_sum(
                words,
                (2 * k + 2) as nat,
            );
        assert(word_sum(words, (2 * k + 1) as nat) <= i && i < word_sum(
            words,
            (2 * k + 2) as nat,
        ));
    }
}

/// The camera's map of clipped samples for a layer.
pub open spec fn sat_map_name(channel: int) -> Seq<u8> {
    (if channel == 0 {
        "SatMapR"
    } else if channel == 1 {
        "SatMapG"
    } else {
        "SatMapB"
    }).spec_bytes()
}

/// The runs of the camera's map of clipped samples for a layer, where the camera
/// is one that has such maps.
pub open spec fn camera_runs(x3f: X3f, channel: int) -> Seq<u32> {
    if prop_entry(x3f, "SENSORID".spec_bytes()) != Some("F20".spec_bytes()) {
        Seq::empty()
    } else {
        match camf_matrix_var(x3f, sat_map_name(channel), 1, MatrixType::Uint) {
            Some(m) => m.decoded->Uint_0@,
            None => Seq::empty(),
        }
    }
}

/// Whether the camera's map marks a pixel in a layer.
pub open spec fn camera_marks(x3f: X3f, channel: int, pixels: nat, i: int) -> bool {
    runs_fit(camera_runs(x3f, channel), pixels) && marked(camera_runs(x3f, channel), i)
}

/// Whether the camera's map fits an image of this many pixels and marks any.
pub open spec fn camera_flags(x3f: X3f, pixels: nat, channel: int) -> bool {
    let runs = camera_runs(x3f, channel);
    runs_fit(runs, pixels) && flagged_sum(runs, runs.len() / 2) != 0
}

/// The bits of the layers that are marked, after the maps of the first `n` layers.
pub open spec fn camera_bits(x3f: X3f, pixels: nat, bits: u8, n: nat) -> u8
    decreases n,
{
    if n == 0 {
        bits
    } else {
        let before = camera_bits(x3f, pixels, bits, (n - 1) as nat);
        if camera_flags(x3f, pixels, n - 1) {
            before | layer_bit(n - 1)
        } else {
            before
        }
    }
}

impl SensorReliability {
    /// Marks the samples as clipped that the camera's map for a layer marks.
    fn merge_layer(&mut self, x3f: &X3f<'_>, channel: usize)
        requires
            x3f.inv(),
            channel < 3,
            prop_entry(*x3f, "SENSORID".spec_bytes()) == Some("F20".spec_bytes()),
        ensures
            final(self).rows == old(self).rows,
            final(self).cols == old(self).cols,
            final(self).data@.len() == old(self).data@.len(),
            forall|i: int, c: int|
                0 <= i < old(self).data@.len() && 0 <= c < 3 ==> #[trigger] final(self).data@[i]@[c]
                    == (if c == channel && camera_marks(
                    *x3f,
                    c,
                    old(self).data@.len(),
                    i,
                ) {
                    0
                } else {
                    old(self).data@[i]@[c]
                }),
            final(self).camera_map_channels == (if camera_flags(
                *x3f,
                old(self).data@.len(),
                channel as int,
            ) {
                old(self).camera_map_channels | layer_bit(channel as int)
            } else {
                old(self).camera_map_channels
            }),
    {
        let name: &str = if channel == 0 {
            "SatMapR"
        } else if channel == 1 {
            "SatMapG"
        } else {
            "SatMapB"
        };
        if let Some(m) = x3f_get_camf_matrix_var(x3f, name.as_bytes(), 1, MatrixType::Uint) {
            if let MatrixData::Uint(runs) = &m.decoded {
                let _ = self.merge_camera_runs(runs.as_slice(), channel);
            }
        }
    }

    /// Marks the samples as clipped that the camera's own maps mark. What they do
    /// not mark stays as it is, and so does an image whose size is not that of
    /// its data.
    pub fn merge_merrill_camera_clipping(&mut self, x3f: &X3f<'_>)
        requires
            x3f.inv(),
        ensures
            final(self).rows == old(self).rows,
            final(self).cols == old(self).cols,
            final(self).data@.len() == old(self).data@.len(),
            !old(self).inv() ==> *final(self) == *old(self),
            old(self).inv() ==> forall|i: int, c: int|
                0 <= i < old(self).data@.len() && 0 <= c < 3 ==> #[trigger] final(self).data@[i]@[c]
                    == (if camera_marks(*x3f, c, old(self).data@.len(), i) {
                    0
                } else {
                    old(self).data@[i]@[c]
                }),
            old(self).inv() ==> final(self).camera_map_channels == camera_bits(
                *x3f,
                old(self).data@.len(),
                old(self).camera_map_channels,
                3,
            ),
            forall|i: int, c: int|
                0 <= i < old(self).data@.len() && 0 <= c < 3 ==> #[trigger] final(self).data@[i]@[c]
                    <= old(self).data@[i]@[c],
    {
        match self.rows.checked_mul(self.cols) {
            Some(count) => {
                if count != self.data.len() {
                    return;
                }
            },
            None => {
                let len: usize = self.data.len();
                return;
            },
        }
        let f20: bool = match x3f_get_prop_entry(x3f, "SENSORID".as_bytes()) {
            Some(name) => bytes_eq(name.as_slice(), "F20".as_bytes()),
            None => false,
        };
        reveal_with_fuel(camera_bits, 4);
        if !f20 {
            return;
        }
        let ghost (n, d0) = (self.data@.len(), self.data@);
        self.merge_layer(x3f, 0);
        let ghost d1 = self.data@;
        self.merge_layer(x3f, 1);
        let ghost d2 = self.data@;
        self.merge_layer(x3f, 2);
        proof {
            assert forall|i: int, c: int| 0 <= i < n && 0 <= c < 3 implies #[trigger]
            self.data@[i]@[c] == (if camera_marks(*x3f, c, n, i) {
                0
            } else {
                d0[i]@[c]
            }) by {
                assert(d1[i]@[c] == d1[i]@[c]);
                assert(d2[i]@[c] == d2[i]@[c]);
            }
        }
    }

    /// The reliability of a pixel; outside the image nothing can be relied on.
    pub fn mask(&self, row: usize, col: usize) -> (r: [u8; 3])
        requires
            self.inv(),
        ensures
            if row < self.rows && col < self.cols {
                r == self.data@[row * self.cols + col]
            } else {
                r@ == seq![0u8, 0u8, 0u8]
            },
    {
        if row >= self.rows || col >= self.cols {
            let none: [u8; 3] = [0, 0, 0];
            assert(none@ =~= seq![0u8, 0u8, 0u8]);
            return none;
        }
        let len: usize = self.data.len();
        proof {
            lemma_cell(row as int, col as int, self.rows as int, self.cols as int);
        }
        self.data[row * self.cols + col]
    }

    /// Whether the camera's own maps mark any sample.
    pub fn has_camera_maps(&self) -> (r: bool)
        ensures
            r == (self.camera_map_channels != 0),
    {
        self.camera_map_channels != 0
    }

    /// Whether a sample is clipped.
    pub open spec fn clipped(self, row: int, col: int, c: int) -> bool {
        &&& 0 <= row < self.rows
        &&& 0 <= col < self.cols
        &&& self.data@[row * self.cols + col]@[c] == 0
    }
}

/// The number of steps, along rows and columns, from one pixel to another.
pub open spec fn steps_between(row: int, col: int, row2: int, col2: int) -> int {
    (if row < row2 {
        row2 - row
    } else {
        row - row2
    }) + (if col < col2 {
        col2 - col
    } else {
        col - col2
    })
}

/// Whether no clipped sample of a layer is less than `v` steps from a pixel.
pub open spec fn clear_of(s: SensorReliability, v: int, row: int, col: int, c: int) -> bool {
    forall|r2: int, c2: int| #[trigger]
        s.clipped(r2, c2, c) ==> v <= steps_between(row, col, r2, c2)
}

/// Whether a clipped sample of a layer is at most `v` steps from a pixel.
pub open spec fn reaches(s: SensorReliability, v: int, row: int, col: int, c: int) -> bool {
    exists|r2: int, c2: int| #[trigger]
        s.clipped(r2, c2, c) && steps_between(row, col, r2, c2) <= v
}

/// Whether `v` is the number of steps from a pixel to the next clipped sample of
/// a layer, or four where that is farther or there is none.
pub open spec fn is_support(s: SensorReliability, v: int, row: int, col: int, c: int) -> bool {
    &&& 0 <= v <= 4
    &&& clear_of(s, v, row, col, c)
    &&& v < 4 ==> reaches(s, v, row, col, c)
}

/// Clipped samples up and to the left are no nearer.
spec fn clear_before(s: SensorReliability, v: int, row: int, col: int, c: int) -> bool {
    forall|r2: int, c2: int| #[trigger]
        s.clipped(r2, c2, c) && r2 <= row && c2 <= col ==> v <= steps_between(row, col, r2, c2)
}

/// After the first pass: clipped samples up and to the left are no nearer, and
/// there is one as near.
spec fn half_support(s: SensorReliability, v: int, row: int, col: int, c: int) -> bool {
    &&& 0 <= v <= 4
    &&& clear_before(s, v, row, col, c)
    &&& v < 4 ==> reaches(s, v, row, col, c)
}

/// One step from a neighbour.
proof fn lemma_reaches(s: SensorReliability, v: int, row: int, col: int, r1: int, c1: int, c: int)
    requires
        reaches(s, v, r1, c1, c),
        steps_between(row, col, r1, c1) == 1,
    ensures
        reaches(s, v + 1, row, col, c),
{
    let (r2, c2) = choose|r2: int, c2: int| #[trigger]
        s.clipped(r2, c2, c) && steps_between(r1, c1, r2, c2) <= v;
    assert(s.clipped(r2, c2, c) && steps_between(row, col, r2, c2) <= v + 1);
}

fn smaller(a: u8, b: u8) -> (r: u8)
    ensures
        r == (if a < b {
            a
        } else {
            b
        }),
{
    if a < b {
        a
    } else {
        b
    }
}

/// The distances of all pixels to the next clipped sample of a layer, up to four.
fn layer_support(s: &SensorReliability, c: usize) -> (r: Vec<u8>)
    requires
        s.inv(),
        c < 3,
    ensures
        r@.len() == s.data@.len(),
        forall|row: int, col: int|
            0 <= row < s.rows && 0 <= col < s.cols ==> is_support(
                *s,
                #[trigger] r@[row * s.cols + col] as int,
                row,
                col,
                c as int,
            ),
{
    let (rows, cols): (usize, usize) = (s.rows, s.cols);
    let len: usize = s.data.len();
    let ghost (w, cc) = (cols as int, c as int);
    let mut out: Vec<u8> = Vec::new();
    // Down and to the right.
    let mut row: usize = 0;
    assert(0 * cols == 0);
    while row < rows
        invariant
            row <= rows,
            s.inv(),
            rows == s.rows,
            cols == s.cols,
            len == s.data@.len(),
            c < 3,
            (w, cc) == (cols as int, c as int),
            out@.len() == row * cols,
            forall|a: int, b: int|
                0 <= a < row && 0 <= b < cols ==> half_support(
                    *s,
                    #[trigger] out@[a * w + b] as int,
                    a,
                    b,
                    cc,
                ),
        decreases rows - row,
    {
        let mut col: usize = 0;
        while col < cols
            invariant
                row < rows,
                col <= cols,
                s.inv(),
                rows == s.rows,
                cols == s.cols,
                len == s.data@.len(),
                c < 3,
                (w, cc) == (cols as int, c as int),
                out@.len() == row * cols + col,
                forall|a: int, b: int|
                    0 <= a < row && 0 <= b < cols || a == row && 0 <= b < col ==> half_support(
                        *s,
                        #[trigger] out@[a * w + b] as int,
                        a,
                        b,
                        cc,
                    ),
            decreases cols - col,
        {
            let ghost (y, x) = (row as int, col as int);
            proof {
                lemma_cell(y, x, rows as int, w);
            }
            let i: usize = row * cols + col;
            let own: u8 = if s.data[i][c] == 0 {
                0
            } else {
                4
            };
            let mut v: u8 = own;
            if row > 0 {
                proof {
                    lemma_cell(y - 1, x, rows as int, w);
                    assert((y - 1) * w == y * w - w) by (nonlinear_arith);
                }
                v = smaller(v, out[i - cols] + 1);
            }
            if col > 0 {
                assert(half_support(*s, out@[y * w + (x - 1)] as int, y, x - 1, cc));
                v = smaller(v, out[i - 1] + 1);
            }
            proof {
                let up = if y > 0 {
                    out@[(y - 1) * w + x] as int
                } else {
                    4
                };
                let left = if x > 0 {
                    out@[y * w + (x - 1)] as int
                } else {
                    4
                };
                if y > 0 {
                    assert(half_support(*s, up, y - 1, x, cc));
                }
                if x > 0 {
                    assert(half_support(*s, left, y, x - 1, cc));
                }
                assert forall|r2: int, c2: int| #[trigger]
                    s.clipped(r2, c2, cc) && r2 <= y && c2 <= x implies v <= steps_between(
                    y,
                    x,
                    r2,
                    c2,
                ) by {
                    if r2 < y {
                        assert(up <= steps_between(y - 1, x, r2, c2));
                    } else if c2 < x {
                        assert(left <= steps_between(y, x - 1, r2, c2));
                    }
                }
                if v < 4 {
                    if v == own {
                        assert(s.clipped(y, x, cc) && steps_between(y, x, y, x) <= v);
                    } else if y > 0 && v == up + 1 {
                        lemma_reaches(*s, up, y, x, y - 1, x, cc);
                    } else {
                        lemma_reaches(*s, left, y, x, y, x - 1, cc);
                    }
                }
            }
            let ghost before = out@;
            out.push(v);
            proof {
                assert forall|a: int, b: int| 0 <= a < row && 0 <= b < cols || a == row && 0 <= b
                    < col + 1 implies half_support(
                    *s,
                    #[trigger] out@[a * w + b] as int,
                    a,
                    b,
                    cc,
                ) by {
                    lemma_cell(a, b, rows as int, w);
                    if a < row {
                        assert(a * w + w <= row * w) by (nonlinear_arith)
                            requires
                                a + 1 <= row,
                                w >= 0,
                        ;
                        assert(out@[a * w + b] == before[a * w + b]);
                    } else if b < col {
                        assert(out@[a * w + b] == before[a * w + b]);
                    }
                }
            }
            col = col + 1;
        }
        assert(row * cols + cols == (row + 1) * cols) by (nonlinear_arith);
        row = row + 1;
    }
    // Up and to the left.
    let mut row: usize = rows;
    while row > 0
        invariant
            row <= rows,
            s.inv(),
            rows == s.rows,
            cols == s.cols,
            len == s.data@.len(),
            c < 3,
            (w, cc) == (cols as int, c as int),
            out@.len() == rows * cols,
            forall|a: int, b: int|
                0 <= a < row && 0 <= b < cols ==> half_support(
                    *s,
                    #[trigger] out@[a * w + b] as int,
                    a,
                    b,
                    cc,
                ),
            forall|a: int, b: int|
                row <= a < rows && 0 <= b < cols ==> is_support(
                    *s,
                    #[trigger] out@[a * w + b] as int,
                    a,
                    b,
                    cc,
                ),
        decreases row,
    {
        row = row - 1;
        let mut col: usize = cols;
        while col > 0
            invariant
                row < rows,
                col <= cols,
                s.inv(),
                rows == s.rows,
                cols == s.cols,
                len == s.data@.len(),
                c < 3,
                (w, cc) == (cols as int, c as int),
                out@.len() == rows * cols,
                forall|a: int, b: int|
                    0 <= a < row && 0 <= b < cols || a == row && 0 <= b < col ==> half_support(
                        *s,
                        #[trigger] out@[a * w + b] as int,
                        a,
                        b,
                        cc,
                    ),
                forall|a: int, b: int|
                    row < a < rows && 0 <= b < cols || a == row && col <= b < cols ==> is_support(
                        *s,
                        #[trigger] out@[a * w + b] as int,
                        a,
                        b,
                        cc,
                    ),
            decreases col,
        {
            col = col - 1;
            let ghost (y, x) = (row as int, col as int);
            proof {
                lemma_cell(y, x, rows as int, w);
                assert(half_support(*s, out@[y * w + x] as int, y, x, cc));
            }
            let i: usize = row * cols + col;
            let own: u8 = out[i];
            let mut v: u8 = own;
            if row < rows - 1 {
                proof {
                    lemma_cell(y + 1, x, rows as int, w);
                    assert((y + 1) * w == y * w + w) by (nonlinear_arith);
                }
                v = smaller(v, out[i + cols] + 1);
            }
            if col < cols - 1 {
                proof {
                    lemma_cell(y, x + 1, rows as int, w);
                }
                v = smaller(v, out[i + 1] + 1);
            }
            proof {
                let down = if y < rows - 1 {
                    out@[(y + 1) * w + x] as int
                } else {
                    4
                };
                let right = if x < cols - 1 {
                    out@[y * w + (x + 1)] as int
                } else {
                    4
                };
                if y < rows - 1 {
                    assert(is_support(*s, down, y + 1, x, cc));
                }
                if x < cols - 1 {
                    assert(is_support(*s, right, y, x + 1, cc));
                }
                assert forall|r2: int, c2: int| #[trigger] s.clipped(r2, c2, cc) implies v
                    <= steps_between(y, x, r2, c2) by {
                    if r2 > y {
                        assert(down <= steps_between(y + 1, x, r2, c2));
                    } else if c2 > x {
                        assert(right <= steps_between(y, x + 1, r2, c2));
                    }
                }
                if v < 4 && v != own {
                    if y < rows - 1 && v == down + 1 {
                        lemma_reaches(*s, down, y, x, y + 1, x, cc);
                    } else {
                        lemma_reaches(*s, right, y, x, y, x + 1, cc);
                    }
                }
            }
            let ghost before = out@;
            out.set(i, v);
            proof {
                assert forall|a: int, b: int| 0 <= a < rows && 0 <= b < cols && !(a == y && b
                    == x) implies #[trigger] out@[a * w + b] == before[a * w + b] by {
                    lemma_cell(a, b, rows as int, w);
                }
            }
        }
    }
    out
}

impl SensorReliability {
    /// The distances of all pixels to the next clipped sample of each layer, up
    /// to four; nothing for an image without pixels.
    pub fn build_camera_color_support(&self) -> (r: Option<Vec<[u8; 3]>>)
        ensures
            match r {
                Some(v) => {
                    &&& 0 < self.rows * self.cols
                    &&& self.inv()
                    &&& v@.len() == self.data@.len()
                    &&& forall|row: int, col: int, c: int|
                        0 <= row < self.rows && 0 <= col < self.cols && 0 <= c < 3 ==> is_support(
                            *self,
                            #[trigger] v@[row * self.cols + col]@[c] as int,
                            row,
                            col,
                            c,
                        )
                },
                None => self.rows * self.cols == 0 || !self.inv(),
            },
    {
        let count: usize = match self.rows.checked_mul(self.cols) {
            Some(count) => count,
            None => {
                let len: usize = self.data.len();
                return None;
            },
        };
        if count == 0 || count != self.data.len() {
            return None;
        }
        let v0: Vec<u8> = layer_support(self, 0);
        let v1: Vec<u8> = layer_support(self, 1);
        let v2: Vec<u8> = layer_support(self, 2);
        let mut out: Vec<[u8; 3]> = Vec::new();
        let mut i: usize = 0;
        while i < count
            invariant
                i <= count,
                v0@.len() == count,
                v1@.len() == count,
                v2@.len() == count,
                out@.len() == i,
                forall|k: int| 0 <= k < i ==> (#[trigger] out@[k])@ == seq![v0@[k], v1@[k], v2@[k]],
            decreases count - i,
        {
            let p: [u8; 3] = [v0[i], v1[i], v2[i]];
            assert(p@ =~= seq![v0@[i as int], v1@[i as int], v2@[i as int]]);
            out.push(p);
            i = i + 1;
        }
        proof {
            assert forall|row: int, col: int, c: int| 0 <= row < self.rows && 0 <= col < self.cols
                && 0 <= c < 3 implies is_support(
                *self,
                #[trigger] out@[row * self.cols + col]@[c] as int,
                row,
                col,
                c,
            ) by {
                lemma_cell(row, col, self.rows as int, self.cols as int);
                let k = row * self.cols + col;
                assert(out@[k]@ == seq![v0@[k], v1@[k], v2@[k]]);
                assert(is_support(*self, v0@[row * self.cols + col] as int, row, col, 0));
                assert(is_support(*self, v1@[row * self.cols + col] as int, row, col, 1));
                assert(is_support(*self, v2@[row * self.cols + col] as int, row, col, 2));
            }
        }
        Some(out)
    }
}

/// The part, in units of 1/27, of its reliability that a sample keeps at this
/// distance from clipped ones: a smooth rise from one step to four.
pub open spec fn feather(distance: u8) -> int {
    if distance <= 1 {
        0
    } else if distance == 2 {
        7
    } else if distance == 3 {
        20
    } else {
        27
    }
}

/// A reliability after the feathering at this distance: the nearest whole number.
pub open spec fn feathered(mask: u8, distance: u8) -> u8 {
    ((2 * mask * feather(distance) + 27) / 54) as u8
}

/// The reliability of a pixel for colour references: in pixels that are partly
/// clipped, less reliable near clipped samples.
pub fn feather_mask(mask: [u8; 3], distance: [u8; 3]) -> (r: [u8; 3])
    ensures
        forall|c: int|
            0 <= c < 3 ==> #[trigger] r@[c] == (if mask@.contains(0u8) {
                feathered(mask@[c], distance@[c])
            } else {
                mask@[c]
            }),
{
    if mask[0] != 0 && mask[1] != 0 && mask[2] != 0 {
        assert(!mask@.contains(0u8));
        return mask;
    }
    proof {
        if mask[0] == 0 {
            assert(mask@[0] == 0);
        } else if mask[1] == 0 {
            assert(mask@[1] == 0);
        } else {
            assert(mask@[2] == 0);
        }
    }
    [
        feather_sample(mask[0], distance[0]),
        feather_sample(mask[1], distance[1]),
        feather_sample(mask[2], distance[2]),
    ]
}

fn feather_sample(mask: u8, distance: u8) -> (r: u8)
    ensures
        r == feathered(mask, distance),
{
    let f: u32 = if distance <= 1 {
        0
    } else if distance == 2 {
        7
    } else if distance == 3 {
        20
    } else {
        27
    };
    proof {
        let (m, g) = (mask as int, f as int);
        assert(0 <= 2 * m * g <= 54 * m) by (nonlinear_arith)
            requires
                0 <= m,
                0 <= g <= 27,
        ;
        assert(2 * mask * f == 2 * m * g);
    }
    ((2 * mask as u32 * f + 27) / 54) as u8
}

/// Which layers of a pixel a repair is anchored at: of those that are not clipped
/// and have a signal, the most reliable ones.
pub fn anchors(mask: [u8; 3], signal: [bool; 3]) -> (r: [bool; 3])
    ensures
        forall|c: int|
            0 <= c < 3 ==> #[trigger] r@[c] == (mask@[c] != 0 && signal@[c] && (forall|d: int|
                0 <= d < 3 && #[trigger] mask@[d] != 0 && signal@[d] ==> mask@[d] <= mask@[c])),
{
    let best: u8 = largest(
        largest(used(mask[0], signal[0]), used(mask[1], signal[1])),
        used(mask[2], signal[2]),
    );
    let r: [bool; 3] = [
        mask[0] != 0 && signal[0] && mask[0] == best,
        mask[1] != 0 && signal[1] && mask[1] == best,
        mask[2] != 0 && signal[2] && mask[2] == best,
    ];
    assert(mask@[0] == mask[0] && mask@[1] == mask[1] && mask@[2] == mask[2]);
    r
}

fn used(mask: u8, signal: bool) -> (r: u8)
    ensures
        r == (if signal {
            mask
        } else {
            0
        }),
{
    if signal {
        mask
    } else {
        0
    }
}

fn largest(a: u8, b: u8) -> (r: u8)
    ensures
        r == (if a < b {
            b
        } else {
            a
        }),
{
    if a < b {
        b
    } else {
        a
    }
}

/// The sums of the words are where the spans of a map end.
proof fn lemma_span_starts(words: Seq<u32>, starts: spec_fn(int) -> int, n: nat)
    requires
        n <= words.len(),
        starts(0) == 0,
        forall|k: int|
            0 <= k < words.len() ==> #[trigger] starts(k + 1) == starts(k) + words[k],
    ensures
        word_sum(words, n) == starts(n as int),
    decreases n,
{
    if n > 0 {
        lemma_span_starts(words, starts, (n - 1) as nat);
        assert(starts(n - 1 + 1) == starts(n - 1) + words[n - 1]);
    }
}

/// A map of runs is spans of pixels, clear and clipped ones in turn: a pixel that lies in
/// one of them is marked if and only if the span is a clipped one, and pixels behind the
/// last span are not marked.
pub proof fn law_every_other_span_is_marked(
    words: Seq<u32>,
    starts: spec_fn(int) -> int,
    j: int,
    i: int,
)
    requires
        starts(0) == 0,
        forall|k: int|
            0 <= k < words.len() ==> #[trigger] starts(k + 1) == starts(k) + words[k],
        0 <= j <= words.len(),
        starts(j) <= i,
        j < words.len() ==> i < starts(j) + words[j],
    ensures
        marked(words, i) <==> j < words.len() && j % 2 == 1,
{
    lemma_span_starts(words, starts, j as nat);
    if j < words.len() {
        lemma_span_starts(words, starts, (j + 1) as nat);
        assert(starts(j + 1) == starts(j) + words[j]);
    }
    if j < words.len() && j % 2 == 1 {
        let k = j / 2;
        assert(2 * k + 1 == j);
        assert(word_sum(words, (2 * k + 1) as nat) <= i < word_sum(words, (2 * k + 2) as nat));
    }
    if marked(words, i) {
        let k = choose|k: int|
            0 <= k < (words.len() / 2) as int && word_sum(words, (2 * k + 1) as nat) <= i && i
                < #[trigger] word_sum(words, (2 * k + 2) as nat);
        if j <= 2 * k {
            if j < words.len() {
                lemma_word_sum(words, (j + 1) as nat, (2 * k + 1) as nat);
            }
        } else if j >= 2 * k + 2 {
            lemma_word_sum(words, (2 * k + 2) as nat, j as nat);
        }
    }
}

/// What a sample keeps of its reliability rises smoothly from nothing, one step from
/// clipped samples, to all of it, four steps from them: with `t` for the part of the way,
/// it is `3 t^2 - 2 t^3` of it, to the nearest whole number.
pub proof fn law_reliability_rises_smoothly(mask: u8, distance: u8)
    requires
        1 <= distance <= 4,
    ensures
        ({
            let n = distance - 1;
            let kept = mask * (9 * (n * n) - 2 * (n * n * n));
            &&& -27 <= 54 * feathered(mask, distance) - 2 * kept <= 27
            &&& distance == 1 ==> feathered(mask, distance) == 0
            &&& distance == 4 ==> feathered(mask, distance) == mask
        }),
        feathered(mask, 0) == 0,
{
    let n = distance - 1;
    assert(0int * 0 == 0 && 0int * 0 * 0 == 0);
    assert(feather(distance) == 9 * (n * n) - 2 * (n * n * n)) by {
        if n == 0 {
            assert(n * n == 0 && n * n * n == 0) by (nonlinear_arith)
                requires
                    n == 0,
            ;
        } else if n == 1 {
            assert(n * n == 1 && n * n * n == 1) by (nonlinear_arith)
                requires
                    n == 1,
            ;
        } else if n == 2 {
            assert(n * n == 4 && n * n * n == 8) by (nonlinear_arith)
                requires
                    n == 2,
            ;
        } else {
            assert(n * n == 9 && n * n * n == 27) by (nonlinear_arith)
                requires
                    n == 3,
            ;
        }
    }
    let f = feather(distance);
    assert(2 * mask * f == 2 * (mask * f)) by (nonlinear_arith);
    assert(0 <= mask * f <= mask * 27) by (nonlinear_arith)
        requires
            0 <= f <= 27,
            0 <= mask,
    ;
    assert(2 * mask * 0 == 0);
}

} // verus!
