//! The TRUE decoder of the newer cameras.

use crate::area::{Area16, Window};
use crate::control::{is_cancelled, Control, Error};
use crate::types::{
    HuffNode, HuffTree, Huffman, ImageData, Quattro, NO_LEAF, X3F_IMAGE_RAW_QUATTRO,
    X3F_IMAGE_RAW_SDQ, X3F_IMAGE_RAW_SDQH,
};
use vstd::arithmetic::power2::{lemma2_to64, lemma_pow2_strictly_increases, lemma_pow2_unfold, pow2};
use vstd::prelude::*;
use vstd::slice::slice_subrange;

verus! {

/// How many nodes a code may pass before it must end.
pub const MAX_DEPTH: usize = 28;

/// Bit `k` of a byte string, counted from the most significant bit of the
/// first byte.
pub open spec fn bit_at(bytes: Seq<u8>, k: int) -> int {
    ((bytes[k / 8] >> (7 - k % 8) as u8) & 1) as int
}

/// A bit is 0 or 1.
pub proof fn lemma_bit_at(bytes: Seq<u8>, k: int)
    ensures
        0 <= bit_at(bytes, k) < 2,
{
    let value = bytes[k / 8];
    let shift = (7 - k % 8) as u8;
    assert((value >> shift) & 1 < 2) by (bit_vector);
}

/// The value of the `n` bits from bit `k` on, most significant first.
pub open spec fn bits_value(bytes: Seq<u8>, k: int, n: nat) -> int
    decreases n,
{
    if n == 0 {
        0
    } else {
        2 * bits_value(bytes, k, (n - 1) as nat) + bit_at(bytes, k + n - 1)
    }
}

/// Whether the image has the three planes of a Quattro sensor.
pub open spec fn spec_is_quattro_format(t: u32) -> bool {
    t == X3F_IMAGE_RAW_QUATTRO || t == X3F_IMAGE_RAW_SDQ || t == X3F_IMAGE_RAW_SDQH
}

/// Whether the image has the three planes of a Quattro sensor.
pub fn is_quattro_format(t: u32) -> (r: bool)
    ensures
        r == spec_is_quattro_format(t),
{
    t == X3F_IMAGE_RAW_QUATTRO || t == X3F_IMAGE_RAW_SDQ || t == X3F_IMAGE_RAW_SDQH
}

/// Reads a byte string bit by bit, most significant bit first.
pub struct BitReader<'a> {
    bytes: &'a [u8],
    byte: usize,
    bit: u8,
}

impl<'a> BitReader<'a> {
    pub closed spec fn source(self) -> Seq<u8> {
        self.bytes@
    }

    /// The number of bits read so far.
    pub closed spec fn pos(self) -> int {
        self.byte * 8 + self.bit
    }

    pub closed spec fn inv(self) -> bool {
        &&& self.bit < 8
        &&& self.byte <= self.bytes@.len() <= usize::MAX
        &&& self.byte == self.bytes@.len() ==> self.bit == 0
    }

    /// Starts at the first bit.
    pub fn new(bytes: &'a [u8]) -> (r: Self)
        ensures
            r.inv(),
            r.source() == bytes@,
            r.pos() == 0,
    {
        let length: usize = bytes.len();
        BitReader { bytes, byte: 0, bit: 0 }
    }

    /// The next bit, as 0 or 1.
    pub fn get_bit(&mut self) -> (r: Result<u8, Error>)
        requires
            old(self).inv(),
        ensures
            final(self).inv(),
            final(self).source() == old(self).source(),
            0 <= old(self).pos() <= 8 * old(self).source().len(),
            match r {
                Ok(b) => {
                    &&& old(self).pos() < 8 * old(self).source().len()
                    &&& b == bit_at(old(self).source(), old(self).pos())
                    &&& b == 0 || b == 1
                    &&& final(self).pos() == old(self).pos() + 1
                },
                Err(e) => {
                    &&& old(self).pos() == 8 * old(self).source().len()
                    &&& e == Error::InvalidData("truncated entropy stream")
                    &&& final(self).pos() == old(self).pos()
                },
            },
    {
        if self.byte >= self.bytes.len() {
            return Err(Error::InvalidData("truncated entropy stream"));
        }
        let value: u8 = self.bytes[self.byte];
        let shift: u8 = 7 - self.bit;
        let bit: u8 = (value >> shift) & 1;
        assert(bit == 0 || bit == 1) by (bit_vector)
            requires
                bit == (value >> shift) & 1,
        ;
        if self.bit == 7 {
            self.byte = self.byte + 1;
            self.bit = 0;
        } else {
            self.bit = self.bit + 1;
        }
        Ok(bit)
    }
}

/// The value of the code that starts at bit `pos`, read from `node` down, and
/// the bit after it.
pub open spec fn leaf_from(
    nodes: Seq<HuffNode>,
    node: int,
    bytes: Seq<u8>,
    pos: int,
    depth: nat,
) -> Result<(u32, int), Error>
    decreases depth,
{
    if depth == 0 {
        Err(Error::InvalidData("Huffman tree exceeds maximum depth"))
    } else if !(0 <= node < nodes.len()) {
        Err(Error::InvalidData("Huffman node outside tree"))
    } else if nodes[node].branch[0] is None && nodes[node].branch[1] is None {
        if nodes[node].leaf == NO_LEAF {
            Err(Error::InvalidData("undefined Huffman code"))
        } else {
            Ok((nodes[node].leaf, pos))
        }
    } else if pos >= 8 * bytes.len() {
        Err(Error::InvalidData("truncated entropy stream"))
    } else {
        match nodes[node].branch[bit_at(bytes, pos)] {
            None => Err(Error::InvalidData("invalid Huffman code")),
            Some(next) => leaf_from(nodes, next as int, bytes, pos + 1, (depth - 1) as nat),
        }
    }
}

/// The value of the code that starts at bit `pos`, and the bit after it.
pub open spec fn spec_read_leaf(
    nodes: Seq<HuffNode>,
    bytes: Seq<u8>,
    pos: int,
) -> Result<(u32, int), Error> {
    if nodes.len() == 0 {
        Err(Error::InvalidData("empty Huffman tree"))
    } else {
        leaf_from(nodes, 0, bytes, pos, MAX_DEPTH as nat)
    }
}

/// Reads one code and returns its value.
pub fn read_leaf(br: &mut BitReader<'_>, tree: &HuffTree) -> (r: Result<u32, Error>)
    requires
        old(br).inv(),
    ensures
        final(br).inv(),
        final(br).source() == old(br).source(),
        !is_cancelled(r),
        match r {
            Ok(v) => spec_read_leaf(tree.nodes@, old(br).source(), old(br).pos()) == Ok::<
                (u32, int),
                Error,
            >((v, final(br).pos())),
            Err(e) => spec_read_leaf(tree.nodes@, old(br).source(), old(br).pos()) == Err::<
                (u32, int),
                Error,
            >(e),
        },
{
    if tree.nodes.len() == 0 {
        return Err(Error::InvalidData("empty Huffman tree"));
    }
    let mut node: usize = 0;
    let mut visited: usize = 0;
    while visited < MAX_DEPTH
        invariant
            visited <= MAX_DEPTH,
            tree.nodes@.len() > 0,
            br.inv(),
            br.source() == old(br).source(),
            spec_read_leaf(tree.nodes@, old(br).source(), old(br).pos()) == leaf_from(
                tree.nodes@,
                node as int,
                br.source(),
                br.pos(),
                (MAX_DEPTH - visited) as nat,
            ),
        decreases MAX_DEPTH - visited,
    {
        if node >= tree.nodes.len() {
            return Err(Error::InvalidData("Huffman node outside tree"));
        }
        let value: HuffNode = tree.nodes[node];
        if value.branch[0].is_none() && value.branch[1].is_none() {
            if value.leaf == NO_LEAF {
                return Err(Error::InvalidData("undefined Huffman code"));
            }
            return Ok(value.leaf);
        }
        let bit: u8 = br.get_bit()?;
        match value.branch[bit as usize] {
            None => {
                return Err(Error::InvalidData("invalid Huffman code"));
            },
            Some(next) => {
                node = next;
            },
        }
        visited = visited + 1;
    }
    Err(Error::InvalidData("Huffman tree exceeds maximum depth"))
}

/// The difference whose magnitude has `n` bits from bit `p` on: a leading 1
/// makes it positive, a leading 0 negative.
pub open spec fn signed_magnitude(bytes: Seq<u8>, p: int, n: nat) -> int {
    if n == 0 {
        0
    } else if bit_at(bytes, p) == 0 {
        bits_value(bytes, p, n) - (pow2(n) - 1)
    } else {
        bits_value(bytes, p, n)
    }
}

/// The difference that starts at bit `pos`, and the bit after it.
pub open spec fn spec_true_diff(
    nodes: Seq<HuffNode>,
    bytes: Seq<u8>,
    pos: int,
) -> Result<(int, int), Error> {
    match spec_read_leaf(nodes, bytes, pos) {
        Err(e) => Err(e),
        Ok((bits, p)) => if bits > 31 {
            Err(Error::InvalidData("TRUE difference exceeds 31 bits"))
        } else if p + bits > 8 * bytes.len() && bits > 0 {
            Err(Error::InvalidData("truncated entropy stream"))
        } else {
            Ok((signed_magnitude(bytes, p, bits as nat), p + bits))
        },
    }
}

/// The bits of a number determine where it lies.
proof fn lemma_bits_range(bytes: Seq<u8>, k: int, n: nat)
    requires
        n >= 1,
        forall|j: int| k <= j < k + n ==> #[trigger] bit_at(bytes, j) == 0 || bit_at(bytes, j) == 1,
    ensures
        bit_at(bytes, k) == 0 ==> 0 <= bits_value(bytes, k, n) < pow2((n - 1) as nat),
        bit_at(bytes, k) == 1 ==> pow2((n - 1) as nat) <= bits_value(bytes, k, n) < pow2(n),
    decreases n,
{
    lemma_pow2_unfold(n);
    if n == 1 {
        lemma2_to64();
        assert(bits_value(bytes, k, 0) == 0);
        assert(bit_at(bytes, k + n - 1) == bit_at(bytes, k));
    } else {
        lemma_pow2_unfold((n - 1) as nat);
        lemma_bits_range(bytes, k, (n - 1) as nat);
        assert(bit_at(bytes, k + n - 1) == 0 || bit_at(bytes, k + n - 1) == 1);
        assert(bit_at(bytes, k) == 0 || bit_at(bytes, k) == 1);
    }
}

/// Reads one TRUE difference: a code that gives the number of magnitude bits,
/// then those bits.
pub fn true_diff(br: &mut BitReader<'_>, tree: &HuffTree) -> (r: Result<i32, Error>)
    requires
        old(br).inv(),
    ensures
        final(br).inv(),
        final(br).source() == old(br).source(),
        !is_cancelled(r),
        match r {
            Ok(v) => spec_true_diff(tree.nodes@, old(br).source(), old(br).pos()) == Ok::<
                (int, int),
                Error,
            >((v as int, final(br).pos())),
            Err(e) => spec_true_diff(tree.nodes@, old(br).source(), old(br).pos()) == Err::<
                (int, int),
                Error,
            >(e),
        },
{
    let bits: u32 = read_leaf(br, tree)?;
    if bits > 31 {
        return Err(Error::InvalidData("TRUE difference exceeds 31 bits"));
    }
    let ghost bytes = br.source();
    let ghost p = br.pos();
    if bits == 0 {
        return Ok(0);
    }
    let first: u8 = br.get_bit()?;
    let mut difference: i64 = first as i64;
    let mut span: i64 = 2;
    let mut read: u32 = 1;
    proof {
        lemma2_to64();
        reveal_with_fuel(bits_value, 2);
    }
    while read < bits
        invariant
            1 <= read <= bits <= 31,
            br.inv(),
            br.source() == bytes,
            bytes == old(br).source(),
            br.pos() == p + read,
            p + read <= 8 * bytes.len(),
            first == bit_at(bytes, p),
            difference == bits_value(bytes, p, read as nat),
            span == pow2(read as nat),
            0 <= difference < span <= 0x8000_0000,
            forall|j: int|
                p <= j < p + read ==> #[trigger] bit_at(bytes, j) == 0 || bit_at(bytes, j) == 1,
            spec_true_diff(tree.nodes@, old(br).source(), old(br).pos()) == (if p + bits > 8
                * bytes.len() {
                Err::<(int, int), Error>(Error::InvalidData("truncated entropy stream"))
            } else {
                Ok::<(int, int), Error>((signed_magnitude(bytes, p, bits as nat), p + bits))
            }),
        decreases bits - read,
    {
        let bit: u8 = br.get_bit()?;
        difference = difference * 2 + bit as i64;
        span = span * 2;
        read = read + 1;
        proof {
            lemma_pow2_unfold(read as nat);
            lemma2_to64();
            if read < 31 {
                lemma_pow2_strictly_increases(read as nat, 31);
            }
        }
    }
    proof {
        lemma_bits_range(bytes, p, bits as nat);
        lemma_pow2_unfold(bits as nat);
    }
    if first == 0 {
        difference = difference - (span - 1);
    }
    Ok(difference as i32)
}

/// A TRUE-coded plane: its code tree, its bytes, the value that its predictor
/// starts from, the samples per row, and what is reported when a sample leaves
/// the predictor's range.
pub ghost struct TruePlane {
    pub nodes: Seq<HuffNode>,
    pub bytes: Seq<u8>,
    pub seed: int,
    pub columns: nat,
    pub overflow: Error,
}

impl TruePlane {
    /// The bit at which difference `k` starts, if the ones before it can be
    /// read.
    pub open spec fn diff_start(self, k: nat) -> Option<int>
        decreases k,
    {
        if k == 0 {
            Some(0)
        } else {
            match self.diff_start((k - 1) as nat) {
                None => None,
                Some(p) => match spec_true_diff(self.nodes, self.bytes, p) {
                    Ok((_, q)) => Some(q),
                    Err(_) => None,
                },
            }
        }
    }

    /// What reading difference `k` gives, if the ones before it can be read.
    pub open spec fn diff(self, k: nat) -> Result<(int, int), Error> {
        spec_true_diff(self.nodes, self.bytes, self.diff_start(k)->0)
    }

    /// The sample at (`row`, `column`): the difference of that sample added to
    /// the sample two columns before it or, in the first two columns, two rows
    /// above it.
    #[verifier::opaque]
    pub open spec fn sample(self, row: nat, column: nat) -> int
        decreases row, column,
    {
        let difference = match self.diff((row * self.columns + column) as nat) {
            Ok((d, _)) => d,
            Err(_) => 0,
        };
        if column >= 2 {
            self.sample(row, (column - 2) as nat) + difference
        } else if row >= 2 {
            self.sample((row - 2) as nat, column) + difference
        } else {
            self.seed + difference
        }
    }

    /// What the predictor of a row starts from.
    pub open spec fn start(self, row: nat, column: nat) -> int {
        if row >= 2 {
            self.sample((row - 2) as nat, column)
        } else {
            self.seed
        }
    }

    /// The first error among the first `k` samples.
    #[verifier::opaque]
    pub open spec fn error(self, k: nat) -> Option<Error>
        decreases k,
    {
        if k == 0 {
            None
        } else {
            match self.error((k - 1) as nat) {
                Some(e) => Some(e),
                None => match self.diff((k - 1) as nat) {
                    Err(e) => Some(e),
                    Ok(_) => {
                        let v = self.sample(
                            ((k - 1) / self.columns as int) as nat,
                            ((k - 1) % self.columns as int) as nat,
                        );
                        if i32::MIN <= v <= i32::MAX {
                            None
                        } else {
                            Some(self.overflow)
                        }
                    },
                },
            }
        }
    }

    /// An error among the first samples is the first error of all of them.
    pub proof fn lemma_error_stays(self, j: nat, k: nat)
        requires
            j <= k,
            self.error(j) is Some,
        ensures
            self.error(k) == self.error(j),
        decreases k - j,
    {
        reveal(TruePlane::error);
        if j < k {
            self.lemma_error_stays(j, (k - 1) as nat);
        }
    }

    /// The values that the predictor of a row starts from in its first two
    /// columns.
    pub open spec fn row_starts(self, starts: Seq<i32>, row: nat) -> bool {
        &&& starts.len() == 2
        &&& self.columns >= 1 ==> starts[0] == self.start(row, 0)
        &&& self.columns >= 2 ==> starts[1] == self.start(row, 1)
    }

    /// What reading one more difference tells of the sample and of the errors.
    proof fn lemma_step(self, row: nat, column: nat)
        requires
            column < self.columns,
            self.error((row * self.columns + column) as nat) is None,
            self.diff_start((row * self.columns + column) as nat) is Some,
        ensures
            ({
                let k = (row * self.columns + column) as nat;
                let previous = if column >= 2 {
                    self.sample(row, (column - 2) as nat)
                } else {
                    self.start(row, column)
                };
                match self.diff(k) {
                    Err(e) => self.error(k + 1) == Some(e),
                    Ok((d, q)) => {
                        &&& self.diff_start(k + 1) == Some(q)
                        &&& self.sample(row, column) == previous + d
                        &&& if i32::MIN <= previous + d <= i32::MAX {
                            self.error(k + 1) is None
                        } else {
                            self.error(k + 1) == Some(self.overflow)
                        }
                    },
                }
            }),
    {
        reveal(TruePlane::error);
        reveal(TruePlane::sample);
        let k = (row * self.columns + column) as nat;
        vstd::arithmetic::div_mod::lemma_fundamental_div_mod_converse(
            k as int,
            self.columns as int,
            row as int,
            column as int,
        );
    }

    /// The buffer of `area` with this plane in `channel`, as far as its first
    /// `k` samples reach; every other sample is left alone.
    #[verifier::opaque]
    pub open spec fn paint(self, before: Seq<u16>, w: Window, channel: int, k: int) -> Seq<u16> {
        Seq::new(
            before.len(),
            |i: int|
                if w.holds(i) && w.channel_of(i) == channel && w.row_of(i) * self.columns
                    + w.column_of(i) < k {
                    self.sample(w.row_of(i) as nat, w.column_of(i) as nat) as u16
                } else {
                    before[i]
                },
        )
    }
}

/// Reads the samples of a TRUE-coded plane one after the other.
pub struct PlaneDecoder<'a> {
    br: BitReader<'a>,
    tree: &'a HuffTree,
    columns: u32,
    column: u32,
    /// What the predictor of this row and of the next one starts from.
    starts: [i32; 2],
    next_starts: [i32; 2],
    /// The last samples of this row in the even and the odd columns.
    acc: [i32; 2],
    overflow: &'static str,
    row: Ghost<nat>,
    source: Ghost<TruePlane>,
}

impl<'a> PlaneDecoder<'a> {
    /// The plane that is read.
    pub closed spec fn plane(self) -> TruePlane {
        self.source@
    }

    /// The row of the next sample.
    pub closed spec fn at_row(self) -> nat {
        self.row@
    }

    /// The column of the next sample.
    pub closed spec fn at_column(self) -> nat {
        self.column as nat
    }

    /// The number of samples read.
    pub open spec fn count(self) -> nat {
        self.at_row() * self.plane().columns + self.at_column()
    }

    /// No sample so far had an error, and the predictor is in the state that
    /// the next sample needs.
    pub closed spec fn inv(self) -> bool {
        let plane = self.plane();
        let row = self.at_row();
        let column = self.at_column();
        &&& plane.nodes == self.tree.nodes@
        &&& plane.columns == self.columns
        &&& plane.overflow == Error::InvalidData(self.overflow)
        &&& self.column < self.columns
        &&& self.br.inv()
        &&& self.br.source() == plane.bytes
        &&& plane.diff_start(self.count()) == Some(self.br.pos())
        &&& plane.error(self.count()) is None
        &&& column >= 1 ==> self.acc[((column - 1) % 2) as int] == plane.sample(
            row,
            (column - 1) as nat,
        )
        &&& column >= 2 ==> self.acc[(column % 2) as int] == plane.sample(row, (column - 2) as nat)
        &&& self.starts[0] == (if column >= 1 {
            plane.sample(row, 0)
        } else {
            plane.start(row, 0)
        })
        &&& plane.columns >= 2 ==> self.starts[1] == (if column >= 2 {
            plane.sample(row, 1)
        } else {
            plane.start(row, 1)
        })
        &&& plane.row_starts(self.next_starts@, row + 1)
    }

    /// What the invariant says, for other modules.
    pub proof fn lemma_inv(self)
        requires
            self.inv(),
        ensures
            self.at_column() < self.plane().columns,
            self.plane().error(self.count()) is None,
    {
    }

    /// Starts at the first sample.
    pub fn new(
        bytes: &'a [u8],
        tree: &'a HuffTree,
        seed: i32,
        columns: u32,
        overflow: &'static str,
    ) -> (r: Self)
        requires
            columns > 0,
        ensures
            r.inv(),
            r.at_row() == 0,
            r.at_column() == 0,
            r.plane() == (TruePlane {
                nodes: tree.nodes@,
                bytes: bytes@,
                seed: seed as int,
                columns: columns as nat,
                overflow: Error::InvalidData(overflow),
            }),
    {
        let ghost plane = TruePlane {
            nodes: tree.nodes@,
            bytes: bytes@,
            seed: seed as int,
            columns: columns as nat,
            overflow: Error::InvalidData(overflow),
        };
        assert(plane.error(0) is None) by {
            reveal(TruePlane::error);
        }
        assert(0 * plane.columns == 0) by (nonlinear_arith);
        PlaneDecoder {
            br: BitReader::new(bytes),
            tree,
            columns,
            column: 0,
            starts: [seed; 2],
            next_starts: [seed; 2],
            acc: [0i32; 2],
            overflow,
            row: Ghost(0),
            source: Ghost(plane),
        }
    }

    /// Reads the next sample.
    #[verifier::spinoff_prover]
    #[verifier::rlimit(60)]
    pub fn next(&mut self) -> (r: Result<i32, Error>)
        requires
            old(self).inv(),
        ensures
            final(self).plane() == old(self).plane(),
            !is_cancelled(r),
            match r {
                Ok(v) => {
                    &&& final(self).inv()
                    &&& v == old(self).plane().sample(old(self).at_row(), old(self).at_column())
                    &&& final(self).count() == old(self).count() + 1
                    &&& if old(self).at_column() + 1 < old(self).plane().columns {
                        &&& final(self).at_row() == old(self).at_row()
                        &&& final(self).at_column() == old(self).at_column() + 1
                    } else {
                        &&& final(self).at_row() == old(self).at_row() + 1
                        &&& final(self).at_column() == 0
                    }
                },
                Err(e) => old(self).plane().error(old(self).count() + 1) == Some(e),
            },
    {
        let ghost plane = self.plane();
        let ghost row = self.at_row();
        let column: u32 = self.column;
        let odd: usize = (column % 2) as usize;
        let previous: i32 = if column < 2 {
            self.starts[odd]
        } else {
            self.acc[odd]
        };
        proof {
            plane.lemma_step(row, column as nat);
        }
        let difference: i32 = true_diff(&mut self.br, self.tree)?;
        let value: i32 = match previous.checked_add(difference) {
            Some(value) => value,
            None => {
                return Err(Error::InvalidData(self.overflow));
            },
        };
        self.acc[odd] = value;
        if column < 2 {
            self.starts[odd] = value;
        }
        if column + 1 < self.columns {
            self.column = column + 1;
        } else {
            proof {
                assert((row + 1) * plane.columns == row * plane.columns + plane.columns)
                    by (nonlinear_arith);
                assert(plane.start(row + 2, 0) == plane.sample(row, 0));
                assert(plane.start(row + 2, 1) == plane.sample(row, 1));
            }
            let finished: [i32; 2] = self.starts;
            self.starts = self.next_starts;
            self.next_starts = finished;
            self.column = 0;
            self.row = Ghost((row + 1) as nat);
        }
        Ok(value)
    }
}

/// Decodes a plane of `columns` samples per row into one channel of `out`,
/// which has the plane's rows but may be narrower.
fn decode_plane(
    bytes: &[u8],
    tree: &HuffTree,
    seed: u16,
    columns: u32,
    out: &mut Area16,
    channel: usize,
    control: Control<'_>,
) -> (r: Result<(), Error>)
    requires
        old(out).inv(),
        old(out).columns <= columns,
        channel < old(out).channels,
    ensures
        final(out).same_shape(*old(out)),
        ({
            let plane = TruePlane {
                nodes: tree.nodes@,
                bytes: bytes@,
                seed: seed as int,
                columns: columns as nat,
                overflow: Error::InvalidData("TRUE predictor overflow"),
            };
            let count = old(out).rows * columns;
            match r {
                Ok(_) => {
                    &&& plane.error(count as nat) is None
                    &&& final(out).data@ == plane.paint(
                        old(out).data@,
                        old(out).full(),
                        channel as int,
                        count,
                    )
                    &&& old(out).rows > 0 ==> control.may_read(false)
                },
                Err(Error::Cancelled) => control.may_read(true),
                Err(e) => plane.error(count as nat) == Some(e),
            }
        }),
{
    let ghost plane = TruePlane {
        nodes: tree.nodes@,
        bytes: bytes@,
        seed: seed as int,
        columns: columns as nat,
        overflow: Error::InvalidData("TRUE predictor overflow"),
    };
    let ghost w = out.full();
    let ghost before = out.data@;
    let rows: u32 = out.rows;
    assert(plane.error(0) is None) by {
        reveal(TruePlane::error);
    }
    assert(out.data@ =~= plane.paint(before, w, channel as int, 0)) by {
        reveal(TruePlane::paint);
        assert forall|i: int| 0 <= i < before.len() && w.holds(i) implies w.row_of(i)
            * plane.columns + w.column_of(i) >= 0 by {
            w.lemma_holds(i);
            assert(w.row_of(i) * plane.columns >= 0) by (nonlinear_arith)
                requires
                    w.row_of(i) >= 0,
            ;
        }
    }
    if columns == 0 {
        let mut row: u32 = 0;
        while row < rows
            invariant
                *out == *old(out),
                row > 0 ==> control.may_read(false),
            decreases rows - row,
        {
            control.check()?;
            row = row + 1;
        }
        assert(rows * columns == 0) by (nonlinear_arith)
            requires
                columns == 0,
        ;
        return Ok(());
    }
    assert(0 * columns == 0) by (nonlinear_arith);
    let mut decoder: PlaneDecoder<'_> = PlaneDecoder::new(
        bytes,
        tree,
        seed as i32,
        columns,
        "TRUE predictor overflow",
    );
    let mut row: u32 = 0;
    while row < rows
        invariant
            row <= rows,
            rows == old(out).rows,
            out.same_shape(*old(out)),
            w == old(out).full(),
            before == old(out).data@,
            w.fits(before.len() as int),
            w.columns <= columns,
            channel < w.channels,
            0 < columns,
            plane.columns == columns,
            decoder.inv(),
            decoder.plane() == plane,
            decoder.at_row() == row,
            decoder.at_column() == 0,
            plane == (TruePlane {
                nodes: tree.nodes@,
                bytes: bytes@,
                seed: seed as int,
                columns: columns as nat,
                overflow: Error::InvalidData("TRUE predictor overflow"),
            }),
            out.data@ == plane.paint(before, w, channel as int, row * columns),
            row > 0 ==> control.may_read(false),
        decreases rows - row,
    {
        control.check()?;
        let mut column: u32 = 0;
        while column < columns
            invariant
                row < rows,
                rows == old(out).rows,
                column <= columns,
                out.same_shape(*old(out)),
                w == old(out).full(),
                before == old(out).data@,
                w.fits(before.len() as int),
                w.columns <= columns,
                channel < w.channels,
                plane.columns == columns,
                decoder.inv(),
                decoder.plane() == plane,
                column < columns ==> decoder.at_row() == row && decoder.at_column() == column,
                column == columns ==> decoder.at_row() == row + 1 && decoder.at_column() == 0,
                plane == (TruePlane {
                    nodes: tree.nodes@,
                    bytes: bytes@,
                    seed: seed as int,
                    columns: columns as nat,
                    overflow: Error::InvalidData("TRUE predictor overflow"),
                }),
                out.data@ == plane.paint(before, w, channel as int, row * columns + column),
                control.may_read(false),
            decreases columns - column,
        {
            if column % 4096 == 0 {
                control.check()?;
            }
            proof {
                let k = (row * columns + column) as nat;
                assert(k < rows * columns) by (nonlinear_arith)
                    requires
                        k == row * columns + column,
                        row + 1 <= rows,
                        column < columns,
                ;
                if plane.error(k + 1) is Some {
                    plane.lemma_error_stays(k + 1, (rows * columns) as nat);
                }
            }
            let value: i32 = decoder.next()?;
            if column < out.columns {
                proof {
                    w.lemma_fits_inside(before.len() as int);
                }
                let index: usize = out.window().at(
                    row as usize,
                    column as usize,
                    channel,
                    out.data.len(),
                );
                out.data.set(index, value as u16);
            }
            proof {
                lemma_paint_step(plane, before, w, channel as int, row as int, column as int);
                assert(out.data@ =~= plane.paint(
                    before,
                    w,
                    channel as int,
                    row * columns + column + 1,
                ));
            }
            column = column + 1;
        }
        proof {
            assert((row + 1) * columns == row * columns + columns) by (nonlinear_arith);
        }
        row = row + 1;
    }
    proof {
        decoder.lemma_inv();
    }
    Ok(())
}

/// One more sample changes the raster in one place at most.
proof fn lemma_paint_step(
    plane: TruePlane,
    before: Seq<u16>,
    w: Window,
    channel: int,
    row: int,
    column: int,
)
    requires
        w.fits(before.len() as int),
        w.columns <= plane.columns,
        0 <= channel < w.channels,
        0 <= row < w.rows,
        0 <= column < plane.columns,
    ensures
        ({
            let k = row * plane.columns + column;
            let old_data = plane.paint(before, w, channel, k);
            let new_data = plane.paint(before, w, channel, k + 1);
            if column < w.columns {
                new_data == old_data.update(
                    w.index(row, column, channel),
                    plane.sample(row as nat, column as nat) as u16,
                )
            } else {
                new_data == old_data
            }
        }),
{
    reveal(TruePlane::paint);
    let k = row * plane.columns + column;
    let old_data = plane.paint(before, w, channel, k);
    let new_data = plane.paint(before, w, channel, k + 1);
    if column < w.columns {
        w.lemma_index(row, column, channel);
    }
    assert forall|i: int| 0 <= i < before.len() && w.holds(i) && w.channel_of(i) == channel implies
        (w.row_of(i) * plane.columns + w.column_of(i) == k <==> (w.row_of(i) == row && w.column_of(
        i,
    ) == column)) by {
        w.lemma_holds(i);
        let (r, c) = (w.row_of(i), w.column_of(i));
        if r * plane.columns + c == k {
            vstd::arithmetic::div_mod::lemma_fundamental_div_mod_converse(
                k,
                plane.columns as int,
                row,
                column,
            );
            vstd::arithmetic::div_mod::lemma_fundamental_div_mod_converse(
                k,
                plane.columns as int,
                r,
                c,
            );
        }
    }
    if column < w.columns {
        assert forall|i: int| 0 <= i < before.len() implies #[trigger] new_data[i]
            == old_data.update(
            w.index(row, column, channel),
            plane.sample(row as nat, column as nat) as u16,
        )[i] by {
            if w.holds(i) {
                w.lemma_distinct(i, row, column, channel);
            }
        }
        assert(new_data =~= old_data.update(
            w.index(row, column, channel),
            plane.sample(row as nat, column as nat) as u16,
        ));
    } else {
        assert forall|i: int| 0 <= i < before.len() implies #[trigger] new_data[i]
            == old_data[i] by {
            if w.holds(i) {
                w.lemma_holds(i);
            }
        }
        assert(new_data =~= old_data);
    }
}

/// Decodes the plane of `length` bytes at `start` of the image data into one
/// channel of a raster, where the two agree in size.
fn decode_into(
    data: &Vec<u8>,
    start: usize,
    length: usize,
    tree: &HuffTree,
    seed: u16,
    rows: u32,
    columns: u32,
    out: &mut Area16,
    channel: usize,
    control: Control<'_>,
) -> (r: Result<(), Error>)
    requires
        old(out).data@.len() == 0 || old(out).rows * old(out).row_stride <= old(out).data@.len(),
    ensures
        final(out).same_shape(*old(out)),
        ({
            let plane = TruePlane {
                nodes: tree.nodes@,
                bytes: data@.subrange(start as int, start + length),
                seed: seed as int,
                columns: columns as nat,
                overflow: Error::InvalidData("TRUE predictor overflow"),
            };
            let output = *old(out);
            let setup: Option<Error> = if output.data@.len() == 0 || rows != output.rows || columns
                < output.columns || channel >= output.channels {
                Some(Error::InvalidData("invalid TRUE output geometry"))
            } else if output.columns * output.channels > u32::MAX {
                Some(Error::Allocation)
            } else if output.row_stride < output.columns * output.channels {
                Some(Error::InvalidData("invalid TRUE output geometry"))
            } else if start + length > data@.len() {
                Some(Error::InvalidData("TRUE plane outside image"))
            } else {
                None
            };
            let error = if setup is Some {
                setup
            } else {
                plane.error((rows * columns) as nat)
            };
            match r {
                Ok(_) => {
                    &&& error is None
                    &&& final(out).data@ == plane.paint(
                        output.data@,
                        output.full(),
                        channel as int,
                        rows * columns,
                    )
                    &&& rows > 0 ==> control.may_read(false)
                },
                Err(Error::Cancelled) => control.may_read(true),
                Err(e) => error == Some(e),
            }
        }),
{
    if out.data.len() == 0 || rows != out.rows || columns < out.columns || channel
        >= out.channels as usize {
        return Err(Error::InvalidData("invalid TRUE output geometry"));
    }
    let used: u32 = match out.columns.checked_mul(out.channels) {
        Some(used) => used,
        None => {
            return Err(Error::Allocation);
        },
    };
    if out.row_stride < used {
        return Err(Error::InvalidData("invalid TRUE output geometry"));
    }
    if start > data.len() || length > data.len() - start {
        return Err(Error::InvalidData("TRUE plane outside image"));
    }
    decode_plane(
        slice_subrange(data.as_slice(), start, start + length),
        tree,
        seed,
        columns,
        out,
        channel,
        control,
    )
}

impl ImageData {
    /// Whether plane `color` is the top layer of a Quattro sensor, which has a
    /// raster of its own.
    pub open spec fn is_top_plane(self, color: int) -> bool {
        &&& spec_is_quattro_format(self.type_format)
        &&& self.quattro is Some
        &&& self.quattro->0.quattro_layout
        &&& color == 2
    }

    /// The rows of plane `color`.
    pub open spec fn plane_rows(self, color: int) -> u32 {
        if spec_is_quattro_format(self.type_format) {
            self.quattro->0.plane[color].rows as u32
        } else {
            self.rows
        }
    }

    /// The columns of plane `color`.
    pub open spec fn plane_columns(self, color: int) -> u32 {
        if spec_is_quattro_format(self.type_format) {
            self.quattro->0.plane[color].columns as u32
        } else {
            self.columns
        }
    }

    /// The raster that plane `color` is decoded into.
    pub open spec fn plane_output(self, color: int) -> Area16 {
        if self.is_top_plane(color) {
            self.quattro->0.top16
        } else {
            self.tru->0.x3rgb16
        }
    }

    /// The channel that plane `color` is decoded into.
    pub open spec fn plane_channel(self, color: int) -> int {
        if self.is_top_plane(color) {
            0
        } else {
            color
        }
    }

    /// Plane `color` as it is coded.
    pub open spec fn true_plane(self, color: int) -> TruePlane {
        let start = self.tru->0.plane_offset[color] as int;
        TruePlane {
            nodes: self.tru->0.tree.nodes@,
            bytes: self.data@.subrange(start, start + self.tru->0.plane_size[color]),
            seed: self.tru->0.seed[color] as int,
            columns: self.plane_columns(color) as nat,
            overflow: Error::InvalidData("TRUE predictor overflow"),
        }
    }

    /// What keeps plane `color` from being decoded at all.
    pub open spec fn plane_setup_error(self, color: int) -> Option<Error> {
        let output = self.plane_output(color);
        if self.tru is None || self.data@.len() == 0 {
            Some(Error::InvalidData("missing TRUE data"))
        } else if self.tru->0.plane_size@.len() != 3 {
            Some(Error::InvalidData("missing TRUE plane lengths"))
        } else if spec_is_quattro_format(self.type_format) && self.quattro is None {
            Some(Error::InvalidData("missing Quattro planes"))
        } else if output.data@.len() == 0 || self.plane_rows(color) != output.rows
            || self.plane_columns(color) < output.columns || self.plane_channel(color)
            >= output.channels {
            Some(Error::InvalidData("invalid TRUE output geometry"))
        } else if output.columns * output.channels > u32::MAX {
            Some(Error::Allocation)
        } else if output.row_stride < output.columns * output.channels {
            Some(Error::InvalidData("invalid TRUE output geometry"))
        } else if self.tru->0.plane_offset[color] + self.tru->0.plane_size[color]
            > self.data@.len() {
            Some(Error::InvalidData("TRUE plane outside image"))
        } else {
            None
        }
    }

    /// The first error in setting up or decoding plane `color`.
    pub open spec fn plane_error(self, color: int) -> Option<Error> {
        match self.plane_setup_error(color) {
            Some(e) => Some(e),
            None => self.true_plane(color).error(
                (self.plane_rows(color) * self.plane_columns(color)) as nat,
            ),
        }
    }

    /// The buffer of the raster of plane `color` once the plane is decoded.
    pub open spec fn painted(self, color: int) -> Seq<u16> {
        let output = self.plane_output(color);
        self.true_plane(color).paint(
            output.data@,
            output.full(),
            self.plane_channel(color),
            self.plane_rows(color) * self.plane_columns(color),
        )
    }

    /// The rasters' buffers hold all of their rows.
    pub open spec fn rasters_hold(self) -> bool {
        &&& self.tru is Some ==> self.tru->0.x3rgb16.data@.len() == 0
            || self.tru->0.x3rgb16.rows * self.tru->0.x3rgb16.row_stride
            <= self.tru->0.x3rgb16.data@.len()
        &&& self.quattro is Some ==> self.quattro->0.top16.data@.len() == 0
            || self.quattro->0.top16.rows * self.quattro->0.top16.row_stride
            <= self.quattro->0.top16.data@.len()
    }

    /// The same section, but for what its TRUE rasters hold.
    pub open spec fn same_but_rasters(self, other: Self) -> bool {
        &&& self.type_ == other.type_
        &&& self.format == other.format
        &&& self.type_format == other.type_format
        &&& self.columns == other.columns
        &&& self.rows == other.rows
        &&& self.row_stride == other.row_stride
        &&& self.huffman == other.huffman
        &&& self.data == other.data
        &&& self.tru is Some <==> other.tru is Some
        &&& self.tru is Some ==> {
            let (a, b) = (self.tru->0, other.tru->0);
            &&& a.seed == b.seed
            &&& a.unknown == b.unknown
            &&& a.table == b.table
            &&& a.plane_size == b.plane_size
            &&& a.plane_offset == b.plane_offset
            &&& a.tree == b.tree
            &&& a.x3rgb16.same_shape(b.x3rgb16)
        }
        &&& self.quattro is Some <==> other.quattro is Some
        &&& self.quattro is Some ==> {
            let (a, b) = (self.quattro->0, other.quattro->0);
            &&& a.plane == b.plane
            &&& a.unknown == b.unknown
            &&& a.quattro_layout == b.quattro_layout
            &&& a.top16.same_shape(b.top16)
        }
    }

    /// The raster that plane `color` is not decoded into stays as it was.
    pub open spec fn other_raster_kept(self, before: Self, color: int) -> bool {
        if before.is_top_plane(color) {
            self.tru->0.x3rgb16.data@ == before.tru->0.x3rgb16.data@
        } else {
            self.quattro is Some ==> self.quattro->0.top16.data@ == before.quattro->0.top16.data@
        }
    }
}

/// Decodes plane `color` of a TRUE-coded image into its raster.
pub fn true_decode_one_color(id: &mut ImageData, color: usize, control: Control<'_>) -> (r: Result<
    (),
    Error,
>)
    requires
        color < 3,
        old(id).rasters_hold(),
    ensures
        final(id).same_but_rasters(*old(id)),
        match r {
            Ok(_) => {
                &&& old(id).plane_error(color as int) is None
                &&& final(id).plane_output(color as int).data@ == old(id).painted(color as int)
                &&& final(id).other_raster_kept(*old(id), color as int)
                &&& old(id).plane_rows(color as int) > 0 ==> control.may_read(false)
            },
            Err(Error::Cancelled) => control.may_read(true),
            Err(e) => old(id).plane_error(color as int) == Some(e),
        },
{
    if id.tru.is_none() || id.data.len() == 0 {
        return Err(Error::InvalidData("missing TRUE data"));
    }
    let mut rows: u32 = id.rows;
    let mut columns: u32 = id.columns;
    let mut top: bool = false;
    let quattro: bool = is_quattro_format(id.type_format);
    match &mut id.tru {
        None => Err(Error::InvalidData("missing TRUE data")),
        Some(tru) => {
            if tru.plane_size.len() != 3 {
                return Err(Error::InvalidData("missing TRUE plane lengths"));
            }
            if quattro {
                match &id.quattro {
                    None => {
                        return Err(Error::InvalidData("missing Quattro planes"));
                    },
                    Some(q) => {
                        rows = q.plane[color].rows as u32;
                        columns = q.plane[color].columns as u32;
                        top = q.quattro_layout && color == 2;
                    },
                }
            }
            let start: usize = tru.plane_offset[color];
            let length: usize = tru.plane_size[color] as usize;
            let seed: u16 = tru.seed[color];
            if top {
                match &mut id.quattro {
                    None => Err(Error::InvalidData("missing Quattro planes")),
                    Some(q) => decode_into(
                        &id.data,
                        start,
                        length,
                        &tru.tree,
                        seed,
                        rows,
                        columns,
                        &mut q.top16,
                        0,
                        control,
                    ),
                }
            } else {
                decode_into(
                    &id.data,
                    start,
                    length,
                    &tru.tree,
                    seed,
                    rows,
                    columns,
                    &mut tru.x3rgb16,
                    color,
                    control,
                )
            }
        },
    }
}

impl ImageData {
    /// The samples of the common raster once all planes are decoded: each
    /// channel holds its plane.
    pub open spec fn decoded_raster(self) -> Seq<u16> {
        let area = self.tru->0.x3rgb16;
        let w = area.full();
        let planes: int = if self.is_top_plane(2) {
            2
        } else {
            3
        };
        Seq::new(
            area.data@.len(),
            |i: int|
                if w.holds(i) && w.channel_of(i) < planes {
                    self.true_plane(w.channel_of(i)).sample(
                        w.row_of(i) as nat,
                        w.column_of(i) as nat,
                    ) as u16
                } else {
                    area.data@[i]
                },
        )
    }

    /// The samples of the top raster once all planes are decoded.
    pub open spec fn decoded_top(self) -> Seq<u16> {
        let area = self.quattro->0.top16;
        let w = area.full();
        Seq::new(
            area.data@.len(),
            |i: int|
                if self.is_top_plane(2) && w.holds(i) && w.channel_of(i) == 0 {
                    self.true_plane(2).sample(w.row_of(i) as nat, w.column_of(i) as nat) as u16
                } else {
                    area.data@[i]
                },
        )
    }

    /// The first error over the planes, bottom layer first.
    pub open spec fn true_error(self) -> Option<Error> {
        if self.plane_error(0) is Some {
            self.plane_error(0)
        } else if self.plane_error(1) is Some {
            self.plane_error(1)
        } else {
            self.plane_error(2)
        }
    }

    /// Decoding a plane replaces its channel and nothing else.
    proof fn lemma_painted(self, color: int, i: int)
        requires
            0 <= color < 3,
            self.rasters_hold(),
            self.plane_setup_error(color) is None,
            0 <= i < self.plane_output(color).data@.len(),
        ensures
            self.painted(color).len() == self.plane_output(color).data@.len(),
            self.painted(color)[i] == ({
                let w = self.plane_output(color).full();
                if w.holds(i) && w.channel_of(i) == self.plane_channel(color) {
                    self.true_plane(color).sample(w.row_of(i) as nat, w.column_of(i) as nat) as u16
                } else {
                    self.plane_output(color).data@[i]
                }
            }),
    {
        reveal(TruePlane::paint);
        let w = self.plane_output(color).full();
        if w.holds(i) {
            w.lemma_holds(i);
            let columns = self.plane_columns(color) as int;
            let (r, c) = (w.row_of(i), w.column_of(i));
            assert(r * columns + c < w.rows * columns) by (nonlinear_arith)
                requires
                    r + 1 <= w.rows,
                    0 <= c < columns,
            ;
        }
    }
}

/// Decodes the three planes of a TRUE-coded image.
pub fn true_decode(id: &mut ImageData, control: Control<'_>) -> (r: Result<(), Error>)
    requires
        old(id).rasters_hold(),
    ensures
        final(id).same_but_rasters(*old(id)),
        control.allows(r),
        match r {
            Ok(_) => {
                &&& old(id).true_error() is None
                &&& final(id).tru->0.x3rgb16.data@ == old(id).decoded_raster()
                &&& old(id).quattro is Some ==> final(id).quattro->0.top16.data@ == old(
                    id,
                ).decoded_top()
            },
            Err(Error::Cancelled) => control.may_read(true),
            Err(e) => old(id).true_error() == Some(e),
        },
{
    control.check()?;
    let ghost id0 = *id;
    true_decode_one_color(id, 0, control)?;
    let ghost id1 = *id;
    assert(id1.plane_error(1) == id0.plane_error(1));
    assert(id1.plane_error(2) == id0.plane_error(2));
    true_decode_one_color(id, 1, control)?;
    let ghost id2 = *id;
    assert(id2.plane_error(2) == id0.plane_error(2));
    true_decode_one_color(id, 2, control)?;
    proof {
        let id3 = *id;
        assert(id1.true_plane(1) == id0.true_plane(1));
        assert(id2.true_plane(2) == id0.true_plane(2));
        assert forall|i: int| 0 <= i < id0.tru->0.x3rgb16.data@.len() implies #[trigger]
            id3.tru->0.x3rgb16.data@[i] == id0.decoded_raster()[i] by {
            let w = id0.tru->0.x3rgb16.full();
            if w.holds(i) {
                w.lemma_holds(i);
            }
            id0.lemma_painted(0, i);
            id1.lemma_painted(1, i);
            if !id0.is_top_plane(2) {
                id2.lemma_painted(2, i);
            }
        }
        assert(id3.tru->0.x3rgb16.data@ =~= id0.decoded_raster());
        if id0.quattro is Some {
            assert forall|i: int| 0 <= i < id0.quattro->0.top16.data@.len() implies #[trigger]
                id3.quattro->0.top16.data@[i] == id0.decoded_top()[i] by {
                if id0.is_top_plane(2) {
                    id2.lemma_painted(2, i);
                }
            }
            assert(id3.quattro->0.top16.data@ =~= id0.decoded_top());
        }
    }
    Ok(())
}

/// A plane without differences has the value of its seed everywhere.
pub proof fn law_no_difference_keeps_the_seed(plane: TruePlane, row: nat, column: nat)
    requires
        forall|k: nat| (#[trigger] plane.diff(k)) matches Ok((d, _)) ==> d == 0,
    ensures
        plane.sample(row, column) == plane.seed,
    decreases row, column,
{
    reveal(TruePlane::sample);
    let k = (row * plane.columns + column) as nat;
    assert(plane.diff(k) matches Ok((d, _)) ==> d == 0);
    if column >= 2 {
        law_no_difference_keeps_the_seed(plane, row, (column - 2) as nat);
    } else if row >= 2 {
        law_no_difference_keeps_the_seed(plane, (row - 2) as nat, column);
    }
}

/// Bits that follow each other make up a number from the most significant one on.
pub proof fn law_bits_join(bytes: Seq<u8>, k: int, n: nat, m: nat)
    ensures
        bits_value(bytes, k, n + m) == bits_value(bytes, k, n) * pow2(m) + bits_value(
            bytes,
            k + n,
            m,
        ),
    decreases m,
{
    if m == 0 {
        lemma2_to64();
    } else {
        law_bits_join(bytes, k, n, (m - 1) as nat);
        lemma_pow2_unfold(m);
        let (a, p) = (bits_value(bytes, k, n), pow2((m - 1) as nat) as int);
        assert(a * (2 * p) == 2 * (a * p)) by (nonlinear_arith);
        assert((n + m - 1) as nat == n + (m - 1) as nat);
        assert(k + (n + m) - 1 == k + n + m - 1);
    }
}

/// The eight bits from the beginning of a byte make up the byte.
pub proof fn law_bytes_are_bits(bytes: Seq<u8>, i: int)
    requires
        0 <= i < bytes.len(),
    ensures
        bits_value(bytes, 8 * i, 8) == bytes[i],
        forall|k: int| 8 * i <= k < 8 * i + 8 ==> 0 <= #[trigger] bit_at(bytes, k) <= 1,
{
    let b = bytes[i];
    assert forall|k: int| 8 * i <= k < 8 * i + 8 implies 0 <= #[trigger] bit_at(bytes, k) <= 1 by {
        lemma_bit_at(bytes, k);
    }
    reveal_with_fuel(bits_value, 9);
    assert(128 * ((b >> 7u8) & 1) + 64 * ((b >> 6u8) & 1) + 32 * ((b >> 5u8) & 1) + 16 * ((b
        >> 4u8) & 1) + 8 * ((b >> 3u8) & 1) + 4 * ((b >> 2u8) & 1) + 2 * ((b >> 1u8) & 1) + ((b
        >> 0u8) & 1) == b) by (bit_vector);
    assert(bit_at(bytes, 8 * i) == ((b >> 7u8) & 1) as int);
    assert(bit_at(bytes, 8 * i + 1) == ((b >> 6u8) & 1) as int);
    assert(bit_at(bytes, 8 * i + 2) == ((b >> 5u8) & 1) as int);
    assert(bit_at(bytes, 8 * i + 3) == ((b >> 4u8) & 1) as int);
    assert(bit_at(bytes, 8 * i + 4) == ((b >> 3u8) & 1) as int);
    assert(bit_at(bytes, 8 * i + 5) == ((b >> 2u8) & 1) as int);
    assert(bit_at(bytes, 8 * i + 6) == ((b >> 1u8) & 1) as int);
    assert(bit_at(bytes, 8 * i + 7) == ((b >> 0u8) & 1) as int);
}

/// A difference is read back from its code: the code for the number of its
/// bits, then these bits, of the difference itself if it is positive and of its
/// distance from the least difference with as many bits if it is negative.
pub proof fn law_differences_are_read_back(
    nodes: Seq<HuffNode>,
    bytes: Seq<u8>,
    pos: int,
    p: int,
    n: nat,
    difference: int,
)
    requires
        0 <= pos <= p,
        n <= 31,
        p + n <= 8 * bytes.len(),
        spec_read_leaf(nodes, bytes, pos) == Ok::<(u32, int), Error>((n as u32, p)),
        n == 0 ==> difference == 0,
        n > 0 ==> pow2((n - 1) as nat) <= (if difference < 0 {
            -difference
        } else {
            difference
        }) < pow2(n),
        n > 0 ==> bits_value(bytes, p, n) == (if difference > 0 {
            difference
        } else {
            difference + pow2(n) - 1
        }),
    ensures
        spec_true_diff(nodes, bytes, pos) == Ok::<(int, int), Error>((difference, p + n)),
{
    if n > 0 {
        assert forall|j: int| p <= j < p + n implies #[trigger] bit_at(bytes, j) == 0 || bit_at(
            bytes,
            j,
        ) == 1 by {
            lemma_bit_at(bytes, j);
        }
        lemma_bits_range(bytes, p, n);
        lemma_bit_at(bytes, p);
        lemma_pow2_unfold(n);
    }
}

/// Where the differences of a plane can be read, one after the other from its
/// first bit on, they start where `starts` says.
proof fn lemma_starts(plane: TruePlane, starts: spec_fn(int) -> int, d: spec_fn(int) -> int, k: nat)
    requires
        starts(0) == 0,
        forall|i: int|
            0 <= i < k ==> #[trigger] spec_true_diff(plane.nodes, plane.bytes, starts(i)) == Ok::<
                (int, int),
                Error,
            >((d(i), starts(i + 1))),
    ensures
        plane.diff_start(k) == Some(starts(k as int)),
    decreases k,
{
    if k > 0 {
        lemma_starts(plane, starts, d, (k - 1) as nat);
        let i = k - 1;
        assert(spec_true_diff(plane.nodes, plane.bytes, starts(i)) == Ok::<(int, int), Error>(
            (d(i), starts(i + 1)),
        ));
    }
}

/// Whether a stream holds, from where it starts for sample (`r`, `c`) of a raster to
/// where it starts for the next one, the difference of the sample to the one two
/// columns before it or, in the first two columns, to the one two rows above it, and
/// to the seed in the first two rows.
pub open spec fn is_coded(
    nodes: Seq<HuffNode>,
    bytes: Seq<u8>,
    seed: int,
    columns: int,
    raster: spec_fn(int, int) -> int,
    starts: spec_fn(int) -> int,
    r: int,
    c: int,
) -> bool {
    let k = r * columns + c;
    let predicted = if c >= 2 {
        raster(r, c - 2)
    } else if r >= 2 {
        raster(r - 2, c)
    } else {
        seed
    };
    spec_true_diff(nodes, bytes, starts(k)) == Ok::<(int, int), Error>(
        (raster(r, c) - predicted, starts(k + 1)),
    )
}

/// Whether a stream holds the differences of a raster, row by row.
pub open spec fn codes_raster(
    nodes: Seq<HuffNode>,
    bytes: Seq<u8>,
    seed: int,
    rows: int,
    columns: int,
    raster: spec_fn(int, int) -> int,
    starts: spec_fn(int) -> int,
) -> bool {
    &&& starts(0) == 0
    &&& forall|r: int, c: int|
        0 <= r < rows && 0 <= c < columns ==> #[trigger] is_coded(
            nodes,
            bytes,
            seed,
            columns,
            raster,
            starts,
            r,
            c,
        )
}

/// The samples of a plane whose stream holds the differences of a raster.
pub proof fn lemma_coded_samples(
    plane: TruePlane,
    raster: spec_fn(int, int) -> int,
    starts: spec_fn(int) -> int,
    rows: int,
    row: int,
    column: int,
)
    requires
        0 <= row < rows,
        0 <= column < plane.columns,
        codes_raster(
            plane.nodes,
            plane.bytes,
            plane.seed,
            rows,
            plane.columns as int,
            raster,
            starts,
        ),
    ensures
        plane.sample(row as nat, column as nat) == raster(row, column),
    decreases row, column,
{
    let w = plane.columns as int;
    let k = row * w + column;
    let d = |i: int|
        {
            let (r, c) = (i / w, i % w);
            raster(r, c) - (if c >= 2 {
                raster(r, c - 2)
            } else if r >= 2 {
                raster(r - 2, c)
            } else {
                plane.seed
            })
        };
    assert(0 <= row * w) by (nonlinear_arith)
        requires
            0 <= row,
            0 <= w,
    ;
    assert(row * w + w <= rows * w) by (nonlinear_arith)
        requires
            row + 1 <= rows,
            0 <= w,
    ;
    assert forall|i: int| 0 <= i < rows * w implies #[trigger] spec_true_diff(
        plane.nodes,
        plane.bytes,
        starts(i),
    ) == Ok::<(int, int), Error>((d(i), starts(i + 1))) by {
        vstd::arithmetic::div_mod::lemma_fundamental_div_mod(i, w);
        vstd::arithmetic::div_mod::lemma_mod_bound(i, w);
        let (r, c) = (i / w, i % w);
        assert(w * r == r * w) by (nonlinear_arith);
        assert(0 <= r < rows) by (nonlinear_arith)
            requires
                0 <= i < rows * w,
                i == r * w + c,
                0 <= c < w,
                w > 0,
        ;
        assert(is_coded(plane.nodes, plane.bytes, plane.seed, w, raster, starts, r, c));
    }
    lemma_starts(plane, starts, d, k as nat);
    vstd::arithmetic::div_mod::lemma_fundamental_div_mod_converse(k, w, row, column);
    assert(spec_true_diff(plane.nodes, plane.bytes, starts(k)) == Ok::<(int, int), Error>(
        (d(k), starts(k + 1)),
    ));
    reveal(TruePlane::sample);
    assert((row as nat * plane.columns + column as nat) as nat == k);
    if column >= 2 {
        lemma_coded_samples(plane, raster, starts, rows, row, column - 2);
    } else if row >= 2 {
        lemma_coded_samples(plane, raster, starts, rows, row - 2, column);
    }
}

/// Decoding a plane inverts its encoding. For any raster of samples: if the
/// differences that stand in the stream, row by row, are those of each sample to
/// the one two columns before it or, in the first two columns, to the one two
/// rows above it, and to the seed in the first two rows, then the raster is what
/// is decoded. So the even and the odd columns never mix.
pub proof fn law_decoding_inverts_encoding(
    plane: TruePlane,
    raster: spec_fn(int, int) -> int,
    starts: spec_fn(int) -> int,
    rows: int,
    row: int,
    column: int,
)
    requires
        starts(0) == 0,
        0 <= row < rows,
        0 <= column < plane.columns,
        forall|r: int, c: int|
            0 <= r < rows && 0 <= c < plane.columns ==> spec_true_diff(
                plane.nodes,
                plane.bytes,
                starts(r * plane.columns + c),
            ) == Ok::<(int, int), Error>(
                (
                    #[trigger] raster(r, c) - (if c >= 2 {
                        raster(r, c - 2)
                    } else if r >= 2 {
                        raster(r - 2, c)
                    } else {
                        plane.seed
                    }),
                    starts(r * plane.columns + c + 1),
                ),
            ),
    ensures
        plane.sample(row as nat, column as nat) == raster(row, column),
{
    let w = plane.columns as int;
    assert forall|r: int, c: int| 0 <= r < rows && 0 <= c < w implies #[trigger] is_coded(
        plane.nodes,
        plane.bytes,
        plane.seed,
        w,
        raster,
        starts,
        r,
        c,
    ) by {
        let v = raster(r, c);
    }
    lemma_coded_samples(plane, raster, starts, rows, row, column);
}

/// Where the planes of an image come to stand.
pub proof fn lemma_planes_in_channels(
    id: ImageData,
    color: int,
    raster: spec_fn(int, int) -> int,
    starts: spec_fn(int) -> int,
    row: int,
    column: int,
)
    requires
        0 <= color < 3,
        id.rasters_hold(),
        id.true_error() is None,
        ({
            let quattro = spec_is_quattro_format(id.type_format);
            let top = quattro && id.quattro->0.quattro_layout && color == 2;
            let area = if top {
                id.quattro->0.top16
            } else {
                id.tru->0.x3rgb16
            };
            let (rows, columns) = if quattro {
                (
                    id.quattro->0.plane[color].rows as int,
                    id.quattro->0.plane[color].columns as int,
                )
            } else {
                (id.rows as int, id.columns as int)
            };
            let start = id.tru->0.plane_offset[color] as int;
            let bytes = id.data@.subrange(start, start + id.tru->0.plane_size[color]);
            &&& 0 <= row < area.rows
            &&& 0 <= column < area.columns
            &&& codes_raster(
                id.tru->0.tree.nodes@,
                bytes,
                id.tru->0.seed[color] as int,
                rows,
                columns,
                raster,
                starts,
            )
        }),
    ensures
        ({
            let top = spec_is_quattro_format(id.type_format) && id.quattro->0.quattro_layout
                && color == 2;
            if top {
                let area = id.quattro->0.top16;
                let i = row * area.row_stride + column * area.channels;
                &&& id.decoded_top()[i] == raster(row, column) as u16
                &&& id.painted(color)[i] == raster(row, column) as u16
            } else {
                let area = id.tru->0.x3rgb16;
                let i = row * area.row_stride + column * area.channels + color;
                &&& id.decoded_raster()[i] == raster(row, column) as u16
                &&& id.painted(color)[i] == raster(row, column) as u16
            }
        }),
{
    let plane = id.true_plane(color);
    let area = id.plane_output(color);
    let ch = id.plane_channel(color);
    assert(id.plane_setup_error(color) is None);
    lemma_coded_samples(
        plane,
        raster,
        starts,
        id.plane_rows(color) as int,
        row,
        column,
    );
    let w = area.full();
    w.lemma_index(row, column, ch);
    let i = w.index(row, column, ch);
    assert(0 <= i < area.data@.len());
    id.lemma_painted(color, i);
}

/// Every plane of an image comes to stand where it belongs: from its own bytes,
/// with its own seed, into its own channel of the common raster, or into a raster
/// of its own for the top layer of a Quattro sensor.
pub proof fn law_planes_stand_in_their_channels(
    id: ImageData,
    color: int,
    raster: spec_fn(int, int) -> int,
    starts: spec_fn(int) -> int,
    row: int,
    column: int,
)
    requires
        0 <= color < 3,
        id.rasters_hold(),
        id.true_error() is None,
        ({
            let quattro = spec_is_quattro_format(id.type_format);
            let top = quattro && id.quattro->0.quattro_layout && color == 2;
            let area = if top {
                id.quattro->0.top16
            } else {
                id.tru->0.x3rgb16
            };
            let (rows, columns) = if quattro {
                (
                    id.quattro->0.plane[color].rows as int,
                    id.quattro->0.plane[color].columns as int,
                )
            } else {
                (id.rows as int, id.columns as int)
            };
            let start = id.tru->0.plane_offset[color] as int;
            let bytes = id.data@.subrange(start, start + id.tru->0.plane_size[color]);
            &&& 0 <= row < area.rows
            &&& 0 <= column < area.columns
            &&& starts(0) == 0
            &&& forall|r: int, c: int|
                0 <= r < rows && 0 <= c < columns ==> spec_true_diff(
                    id.tru->0.tree.nodes@,
                    bytes,
                    starts(r * columns + c),
                ) == Ok::<(int, int), Error>(
                    (
                        #[trigger] raster(r, c) - (if c >= 2 {
                            raster(r, c - 2)
                        } else if r >= 2 {
                            raster(r - 2, c)
                        } else {
                            id.tru->0.seed[color] as int
                        }),
                        starts(r * columns + c + 1),
                    ),
                )
        }),
    ensures
        ({
            let top = spec_is_quattro_format(id.type_format) && id.quattro->0.quattro_layout
                && color == 2;
            if top {
                let area = id.quattro->0.top16;
                let i = row * area.row_stride + column * area.channels;
                &&& id.decoded_top()[i] == raster(row, column) as u16
                &&& id.painted(color)[i] == raster(row, column) as u16
            } else {
                let area = id.tru->0.x3rgb16;
                let i = row * area.row_stride + column * area.channels + color;
                &&& id.decoded_raster()[i] == raster(row, column) as u16
                &&& id.painted(color)[i] == raster(row, column) as u16
            }
        }),
{
    let plane = id.true_plane(color);
    let (rows, columns) = (id.plane_rows(color) as int, id.plane_columns(color) as int);
    assert(id.plane_setup_error(color) is None);
    assert forall|r: int, c: int| 0 <= r < rows && 0 <= c < columns implies #[trigger] is_coded(
        plane.nodes,
        plane.bytes,
        plane.seed,
        columns,
        raster,
        starts,
        r,
        c,
    ) by {
        let v = raster(r, c);
    }
    lemma_planes_in_channels(id, color, raster, starts, row, column);
}

/// A plane is decoded without an error if and only if each of its differences can be read
/// and each of its samples is a signed 32-bit number.
pub proof fn law_planes_decode_if_their_samples_fit(plane: TruePlane, n: nat)
    requires
        plane.columns > 0,
    ensures
        plane.error(n) is None <==> (forall|k: nat|
            k < n ==> (#[trigger] plane.diff(k)) is Ok && i32::MIN <= plane.sample(
                (k as int / plane.columns as int) as nat,
                (k as int % plane.columns as int) as nat,
            ) <= i32::MAX),
    decreases n,
{
    reveal(TruePlane::error);
    if n > 0 {
        let m = (n - 1) as nat;
        law_planes_decode_if_their_samples_fit(plane, m);
        let d = plane.diff(m);
        if plane.error(n) is None {
            assert forall|k: nat| k < n implies (#[trigger] plane.diff(k)) is Ok && i32::MIN
                <= plane.sample(
                (k as int / plane.columns as int) as nat,
                (k as int % plane.columns as int) as nat,
            ) <= i32::MAX by {
                if k < m {
                    assert(plane.diff(k) is Ok);
                }
            }
        }
    }
}

/// A plane whose stream holds the differences of a raster of 32-bit samples is decoded
/// without an error.
pub proof fn law_coded_planes_decode(
    plane: TruePlane,
    raster: spec_fn(int, int) -> int,
    starts: spec_fn(int) -> int,
    rows: int,
)
    requires
        plane.columns > 0,
        0 <= rows,
        codes_raster(
            plane.nodes,
            plane.bytes,
            plane.seed,
            rows,
            plane.columns as int,
            raster,
            starts,
        ),
        forall|r: int, c: int|
            0 <= r < rows && 0 <= c < plane.columns ==> i32::MIN <= #[trigger] raster(r, c)
                <= i32::MAX,
    ensures
        plane.error((rows * plane.columns) as nat) is None,
{
    let w = plane.columns as int;
    let n = (rows * plane.columns) as nat;
    assert(0 <= rows * w) by (nonlinear_arith)
        requires
            0 <= rows,
            0 <= w,
    ;
    assert forall|k: nat| k < n implies (#[trigger] plane.diff(k)) is Ok && i32::MIN
        <= plane.sample((k as int / w) as nat, (k as int % w) as nat) <= i32::MAX by {
        let i = k as int;
        vstd::arithmetic::div_mod::lemma_fundamental_div_mod(i, w);
        vstd::arithmetic::div_mod::lemma_mod_bound(i, w);
        let (r, c) = (i / w, i % w);
        assert(w * r == r * w) by (nonlinear_arith);
        assert(0 <= r < rows) by (nonlinear_arith)
            requires
                0 <= i < rows * w,
                i == r * w + c,
                0 <= c < w,
                w > 0,
        ;
        assert(i32::MIN <= raster(r, c) <= i32::MAX);
        lemma_coded_samples(plane, raster, starts, rows, r, c);
        lemma_coded_start(plane, raster, starts, rows, k);
        assert(is_coded(plane.nodes, plane.bytes, plane.seed, w, raster, starts, r, c));
    }
    law_planes_decode_if_their_samples_fit(plane, n);
}

/// Where the differences of a coded raster start.
proof fn lemma_coded_start(
    plane: TruePlane,
    raster: spec_fn(int, int) -> int,
    starts: spec_fn(int) -> int,
    rows: int,
    k: nat,
)
    requires
        plane.columns > 0,
        k < rows * plane.columns,
        codes_raster(
            plane.nodes,
            plane.bytes,
            plane.seed,
            rows,
            plane.columns as int,
            raster,
            starts,
        ),
    ensures
        plane.diff_start(k) == Some(starts(k as int)),
    decreases k,
{
    if k > 0 {
        let i = k - 1;
        let w = plane.columns as int;
        lemma_coded_start(plane, raster, starts, rows, i as nat);
        vstd::arithmetic::div_mod::lemma_fundamental_div_mod(i, w);
        vstd::arithmetic::div_mod::lemma_mod_bound(i, w);
        let (r, c) = (i / w, i % w);
        assert(w * r == r * w) by (nonlinear_arith);
        assert(0 <= r < rows) by (nonlinear_arith)
            requires
                0 <= i < rows * w,
                i == r * w + c,
                0 <= c < w,
                w > 0,
        ;
        assert(is_coded(plane.nodes, plane.bytes, plane.seed, w, raster, starts, r, c));
    }
}

/// Whether these are the differences of a plane in the columns of one parity.
pub open spec fn has_differences(
    plane: TruePlane,
    rows: int,
    parity: int,
    d: spec_fn(int, int) -> int,
) -> bool {
    forall|r: int, c: int|
        0 <= r < rows && 0 <= c < plane.columns && c % 2 == parity ==> (match plane.diff(
            (r * plane.columns + c) as nat,
        ) {
            Ok((v, _)) => v == #[trigger] d(r, c),
            Err(_) => false,
        })
}

/// The even and the odd columns of a plane never mix: two planes with the same seed that have
/// the same differences in the columns of one parity have the same samples there, whatever
/// stands in the others. Where all of those differences are zero, the samples are the seed.
pub proof fn law_column_parities_never_mix(
    a: TruePlane,
    b: TruePlane,
    d: spec_fn(int, int) -> int,
    rows: int,
    row: int,
    column: int,
)
    requires
        a.columns == b.columns,
        a.seed == b.seed,
        0 <= row < rows,
        0 <= column < a.columns,
        has_differences(a, rows, column % 2, d),
        has_differences(b, rows, column % 2, d),
    ensures
        a.sample(row as nat, column as nat) == b.sample(row as nat, column as nat),
        (forall|r: int, c: int|
            0 <= r < rows && 0 <= c < a.columns && c % 2 == column % 2 ==> #[trigger] d(r, c) == 0)
            ==> a.sample(row as nat, column as nat) == a.seed,
    decreases row, column,
{
    reveal(TruePlane::sample);
    let v = d(row, column);
    assert((row as nat * a.columns + column as nat) as nat == (row * a.columns + column) as nat);
    if column >= 2 {
        law_column_parities_never_mix(a, b, d, rows, row, column - 2);
    } else if row >= 2 {
        law_column_parities_never_mix(a, b, d, rows, row - 2, column);
    }
}

/// An image is decoded without an error if its planes are set up, each with columns, and the
/// stream of each holds the differences of a raster of 32-bit samples.
pub proof fn law_coded_images_decode(
    id: ImageData,
    rasters: spec_fn(int) -> spec_fn(int, int) -> int,
    starts: spec_fn(int) -> spec_fn(int) -> int,
)
    requires
        forall|color: int|
            0 <= color < 3 ==> {
                let plane = id.true_plane(color);
                &&& id.plane_setup_error(color) is None
                &&& plane.columns > 0
                &&& codes_raster(
                    plane.nodes,
                    plane.bytes,
                    plane.seed,
                    id.plane_rows(color) as int,
                    plane.columns as int,
                    #[trigger] rasters(color),
                    starts(color),
                )
                &&& forall|r: int, c: int|
                    0 <= r < id.plane_rows(color) && 0 <= c < plane.columns ==> i32::MIN
                        <= #[trigger] rasters(color)(r, c) <= i32::MAX
            },
    ensures
        id.true_error() is None,
{
    assert forall|color: int| 0 <= color < 3 implies #[trigger] id.plane_error(color) is None by {
        let raster = rasters(color);
        law_coded_planes_decode(
            id.true_plane(color),
            raster,
            starts(color),
            id.plane_rows(color) as int,
        );
    }
    assert(id.plane_error(0) is None && id.plane_error(1) is None && id.plane_error(2) is None);
}

} // verus!
