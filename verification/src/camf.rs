//! The camera's metadata section (CAMF): decryption and decoding of its body,
//! and the table of entries in it.

use crate::control::{Control, Error};
use crate::entropy::{
    bits_value, codes_raster, is_coded, law_bits_join, law_bytes_are_bits,
    law_coded_planes_decode, lemma_bit_at, lemma_coded_samples, spec_true_diff, true_diff,
    BitReader, PlaneDecoder, TruePlane,
};
use crate::parse::{bytes_at, checked_size, le32, u32_at, MAX_ALLOCATION};
use crate::tree::{code_tree, true_codes, true_tree, true_tree_error};
use crate::types::{HuffNode, HuffTree, TrueHuffmanElement};
use vstd::arithmetic::power2::lemma2_to64;
use vstd::prelude::*;
use vstd::slice::slice_subrange;

verus! {

/// The key that follows `key` in the key stream of an encrypted section.
pub open spec fn next_key(key: int) -> int {
    (key * 1597 + 51749) % 244944
}

/// Key `i` of the key stream that starts from `key`.
pub open spec fn key_at(key: int, i: nat) -> int
    decreases i,
{
    if i == 0 {
        key
    } else {
        next_key(key_at(key, (i - 1) as nat))
    }
}

/// The mask that a key gives a byte.
pub open spec fn key_mask(key: int) -> int {
    let t = key * 301_593_171 / 0x100_0000;
    ((key * 256 - t) / 2 + t) / 0x2_0000
}

/// An encrypted section's plain bytes.
pub open spec fn decrypted(data: Seq<u8>, key: int) -> Seq<u8> {
    Seq::new(data.len(), |i: int| data[i] ^ (key_mask(key_at(key, (i + 1) as nat)) as u8))
}

/// Encryption and decryption are the same operation.
pub proof fn law_decryption_undoes_itself(data: Seq<u8>, key: int)
    ensures
        decrypted(decrypted(data, key), key) == data,
{
    let once = decrypted(data, key);
    assert forall|i: int| 0 <= i < data.len() implies decrypted(once, key)[i] == data[i] by {
        let m = key_mask(key_at(key, (i + 1) as nat)) as u8;
        let d = data[i];
        assert((d ^ m) ^ m == d) by (bit_vector);
    }
    assert(decrypted(once, key) =~= data);
}

/// Decrypts a section.
fn decrypt(data: &Vec<u8>, crypt_key: u32, control: Control<'_>) -> (r: Result<Vec<u8>, Error>)
    ensures
        match r {
            Ok(v) => {
                &&& v@ == decrypted(data@, crypt_key as int)
                &&& data@.len() <= MAX_ALLOCATION
                &&& data@.len() > 0 ==> control.may_read(false)
            },
            Err(Error::Cancelled) => control.may_read(true),
            Err(e) => data@.len() > MAX_ALLOCATION && e == Error::Allocation,
        },
{
    if data.len() > MAX_ALLOCATION {
        return Err(Error::Allocation);
    }
    let mut out: Vec<u8> = Vec::with_capacity(data.len());
    let mut key: u64 = crypt_key as u64;
    let mut i: usize = 0;
    while i < data.len()
        invariant
            i <= data@.len(),
            key <= 0xffff_ffff,
            key == key_at(crypt_key as int, i as nat),
            out@ == decrypted(data@, crypt_key as int).take(i as int),
            i > 0 ==> control.may_read(false),
        decreases data@.len() - i,
    {
        if i % 4096 == 0 {
            control.check()?;
        }
        key = (key * 1597 + 51749) % 244944;
        let t: u64 = key * 301_593_171 / 0x100_0000;
        let mask: u64 = ((key * 256 - t) / 2 + t) / 0x2_0000;
        out.push(data[i] ^ (mask as u8));
        i = i + 1;
        proof {
            assert(out@ =~= decrypted(data@, crypt_key as int).take(i as int));
        }
    }
    assert(out@ =~= decrypted(data@, crypt_key as int));
    Ok(out)
}

/// The samples that `size` bytes take at twelve bits each.
pub open spec fn samples_needed(size: int) -> int {
    (2 * size + 2) / 3
}

/// The low twelve bits of sample `m` of a plane.
pub open spec fn word12(plane: TruePlane, m: int) -> int {
    plane.sample((m / plane.columns as int) as nat, (m % plane.columns as int) as nat) % 4096
}

/// Byte `k` of the first `n` samples packed at twelve bits each, two samples to
/// three bytes, most significant bits first; what no sample reaches is zero.
pub open spec fn packed12(plane: TruePlane, n: int, k: int) -> u8 {
    let even = 2 * (k / 3);
    let odd = even + 1;
    (if k % 3 == 0 {
        if even < n {
            word12(plane, even) / 16
        } else {
            0
        }
    } else if k % 3 == 1 {
        (if even < n {
            word12(plane, even) % 16 * 16
        } else {
            0
        }) + (if odd < n {
            word12(plane, odd) / 256
        } else {
            0
        })
    } else if odd < n {
        word12(plane, odd) % 256
    } else {
        0
    }) as u8
}

/// Decodes a block-coded body: `rows` by `columns` samples of twelve bits,
/// packed into `size` bytes.
fn decode_blocks(
    bytes: &[u8],
    tree: &HuffTree,
    seed: i32,
    rows: u32,
    columns: u32,
    size: usize,
    control: Control<'_>,
) -> (r: Result<Vec<u8>, Error>)
    requires
        0 < columns,
        rows * columns <= MAX_ALLOCATION,
        size <= MAX_ALLOCATION,
    ensures
        ({
            let plane = TruePlane {
                nodes: tree.nodes@,
                bytes: bytes@,
                seed: seed as int,
                columns: columns as nat,
                overflow: Error::InvalidData("CAMF predictor overflow"),
            };
            let available = rows * columns;
            let n = if available < samples_needed(size as int) {
                available
            } else {
                samples_needed(size as int)
            };
            match r {
                Ok(v) => {
                    &&& plane.error(n as nat) is None
                    &&& v@ == Seq::new(size as nat, |k: int| packed12(plane, n, k))
                    &&& n > 0 ==> control.may_read(false)
                },
                Err(Error::Cancelled) => control.may_read(true),
                Err(e) => plane.error(n as nat) == Some(e),
            }
        }),
{
    let ghost plane = TruePlane {
        nodes: tree.nodes@,
        bytes: bytes@,
        seed: seed as int,
        columns: columns as nat,
        overflow: Error::InvalidData("CAMF predictor overflow"),
    };
    let available: u64 = rows as u64 * columns as u64;
    let needed: u64 = (2 * size as u64 + 2) / 3;
    let n: u64 = if available < needed {
        available
    } else {
        needed
    };
    let mut out: Vec<u8> = vec![0u8; size];
    let mut decoder: PlaneDecoder<'_> = PlaneDecoder::new(
        bytes,
        tree,
        seed,
        columns,
        "CAMF predictor overflow",
    );
    assert(0 * columns == 0) by (nonlinear_arith);
    let mut m: u64 = 0;
    proof {
        decoder.lemma_inv();
        assert(out@ =~= Seq::new(size as nat, |k: int| packed12(plane, 0, k)));
    }
    while m < n
        invariant
            m <= n <= samples_needed(size as int),
            n == (if rows * columns < samples_needed(size as int) {
                rows * columns
            } else {
                samples_needed(size as int)
            }),
            size <= MAX_ALLOCATION,
            0 < columns,
            plane == (TruePlane {
                nodes: tree.nodes@,
                bytes: bytes@,
                seed: seed as int,
                columns: columns as nat,
                overflow: Error::InvalidData("CAMF predictor overflow"),
            }),
            decoder.inv(),
            decoder.plane() == plane,
            decoder.count() == m,
            out@ == Seq::new(size as nat, |k: int| packed12(plane, m as int, k)),
            m > 0 ==> control.may_read(false),
        decreases n - m,
    {
        if m % 4096 == 0 {
            control.check()?;
        }
        proof {
            if plane.error((m + 1) as nat) is Some {
                plane.lemma_error_stays((m + 1) as nat, n as nat);
            }
            decoder.lemma_inv();
            vstd::arithmetic::div_mod::lemma_fundamental_div_mod_converse(
                m as int,
                columns as int,
                decoder.at_row() as int,
                decoder.at_column() as int,
            );
        }
        let value: i32 = decoder.next()?;
        let word: u32 = ((value as i64 + 0x1_0000_0000) % 4096) as u32;
        let q: usize = (m / 2) as usize;
        let ghost before = out@;
        assert(word == word12(plane, m as int));
        if m % 2 == 0 {
            out.set(3 * q, (word / 16) as u8);
            if 3 * q + 1 < size {
                out.set(3 * q + 1, (word % 16 * 16) as u8);
            }
        } else {
            let high: u8 = out[3 * q + 1];
            assert(high == word12(plane, m - 1) % 16 * 16);
            out.set(3 * q + 1, high + (word / 256) as u8);
            if 3 * q + 2 < size {
                out.set(3 * q + 2, (word % 256) as u8);
            }
        }
        proof {
            let after = Seq::new(size as nat, |k: int| packed12(plane, m + 1, k));
            assert forall|k: int| 0 <= k < size implies #[trigger] out@[k] == after[k] by {
                assert(before[k] == packed12(plane, m as int, k));
            }
            assert(out@ =~= after);
        }
        m = m + 1;
    }
    proof {
        decoder.lemma_inv();
    }
    Ok(out)
}

/// The sum of the first `k` differences of a stream.
pub open spec fn diff_sum(plane: TruePlane, k: nat) -> int
    decreases k,
{
    if k == 0 {
        0
    } else {
        diff_sum(plane, (k - 1) as nat) + (match plane.diff((k - 1) as nat) {
            Ok((d, _)) => d,
            Err(_) => 0,
        })
    }
}

/// The first error among the first `k` differences of a stream.
pub open spec fn diff_error(plane: TruePlane, k: nat) -> Option<Error>
    decreases k,
{
    if k == 0 {
        None
    } else {
        match diff_error(plane, (k - 1) as nat) {
            Some(e) => Some(e),
            None => match plane.diff((k - 1) as nat) {
                Err(e) => Some(e),
                Ok(_) => None,
            },
        }
    }
}

proof fn lemma_diff_error_stays(plane: TruePlane, j: nat, k: nat)
    requires
        j <= k,
        diff_error(plane, j) is Some,
    ensures
        diff_error(plane, k) == diff_error(plane, j),
    decreases k - j,
{
    if j < k {
        lemma_diff_error_stays(plane, j, (k - 1) as nat);
    }
}

/// Byte `k` of an accumulating body: the seed and the differences up to there,
/// summed up in eight bits.
pub open spec fn accumulated(plane: TruePlane, k: int) -> u8 {
    ((plane.seed + diff_sum(plane, (k + 1) as nat)) % 256) as u8
}

/// A running sum in eight bits goes on from its last value.
proof fn lemma_accumulate(sum: int, difference: int)
    ensures
        (sum % 256 + difference + 0x1_0000_0000) % 256 == (sum + difference) % 256,
{
}

/// Decodes an accumulating body of `size` bytes.
#[verifier::spinoff_prover]
fn decode_accumulated(
    bytes: &[u8],
    tree: &HuffTree,
    seed: i32,
    size: usize,
    control: Control<'_>,
    Ghost(plane): Ghost<TruePlane>,
) -> (r: Result<Vec<u8>, Error>)
    requires
        plane.nodes == tree.nodes@,
        plane.bytes == bytes@,
        plane.seed == seed,
    ensures
        match r {
            Ok(v) => {
                &&& diff_error(plane, size as nat) is None
                &&& v@ == Seq::new(size as nat, |k: int| accumulated(plane, k))
                &&& size > 0 ==> control.may_read(false)
            },
            Err(Error::Cancelled) => control.may_read(true),
            Err(e) => diff_error(plane, size as nat) == Some(e),
        },
{
    let mut br: BitReader<'_> = BitReader::new(bytes);
    let mut out: Vec<u8> = Vec::with_capacity(size);
    let mut acc: i64 = (seed as i64 + 0x1_0000_0000) % 256;
    while out.len() < size
        invariant
            out@.len() <= size,
            plane.nodes == tree.nodes@,
            plane.bytes == bytes@,
            br.inv(),
            br.source() == bytes@,
            plane.diff_start(out@.len()) == Some(br.pos()),
            diff_error(plane, out@.len()) is None,
            0 <= acc < 256,
            acc == (plane.seed + diff_sum(plane, out@.len())) % 256,
            forall|k: int| 0 <= k < out@.len() ==> #[trigger] out@[k] == accumulated(plane, k),
            out@.len() > 0 ==> control.may_read(false),
        decreases size - out@.len(),
    {
        if out.len() % 4096 == 0 {
            control.check()?;
        }
        proof {
            let k = out@.len();
            if diff_error(plane, k + 1) is Some {
                lemma_diff_error_stays(plane, k + 1, size as nat);
            }
        }
        let difference: i32 = true_diff(&mut br, tree)?;
        proof {
            lemma_accumulate(plane.seed + diff_sum(plane, out@.len()), difference as int);
        }
        acc = (acc + difference as i64 + 0x1_0000_0000) % 256;
        out.push(acc as u8);
    }
    assert(out@ =~= Seq::new(size as nat, |k: int| accumulated(plane, k)));
    Ok(out)
}

/// A text, property or matrix entry's kind of numbers.
#[derive(Debug)]
pub enum MatrixData {
    Int(Vec<i32>),
    Uint(Vec<u32>),
    /// Single-precision numbers by their bits.
    Float(Vec<u32>),
}

/// One dimension of a matrix.
#[derive(Debug)]
pub struct CamfDim {
    pub size: u32,
    pub name_offset: u32,
    pub n: u32,
    pub name: Vec<u8>,
}

/// A matrix of numbers.
#[derive(Debug)]
pub struct CamfMatrix {
    pub matrix_type: u32,
    pub matrix_data_off: u32,
    pub dims: Vec<CamfDim>,
    pub element_size: u32,
    pub elements: u32,
    /// The bytes from the first number to the end of the entry.
    pub used_space: u32,
    pub decoded: MatrixData,
}

impl MatrixData {
    pub open spec fn len(self) -> nat {
        match self {
            MatrixData::Int(v) => v@.len(),
            MatrixData::Uint(v) => v@.len(),
            MatrixData::Float(v) => v@.len(),
        }
    }
}

/// The number of elements that the first `k` dimensions span.
pub open spec fn dims_product(dims: Seq<CamfDim>, k: nat) -> int
    decreases k,
{
    if k == 0 {
        1
    } else {
        dims_product(dims, (k - 1) as nat) * dims[k - 1].size
    }
}

impl CamfMatrix {
    /// A matrix has the elements that its dimensions span.
    pub open spec fn inv(self) -> bool {
        self.decoded.len() == dims_product(self.dims@, self.dims@.len())
    }
}

impl CamfEntry {
    /// A property list has a value for each name, and a matrix the elements
    /// that its dimensions span.
    pub open spec fn inv(self) -> bool {
        match self.value {
            CamfValue::Text { .. } => true,
            CamfValue::Property { names, values } => names@.len() == values@.len(),
            CamfValue::Matrix(m) => m.inv(),
        }
    }
}

/// What an entry holds.
#[derive(Debug)]
pub enum CamfValue {
    Text { text_size: u32, text: Vec<u8> },
    Property { names: Vec<Vec<u8>>, values: Vec<Vec<u8>> },
    Matrix(CamfMatrix),
}

/// A named entry of the section.
#[derive(Debug)]
pub struct CamfEntry {
    pub id: u32,
    pub version: u32,
    pub entry_size: u32,
    pub name_offset: u32,
    pub value_offset: u32,
    pub name: Vec<u8>,
    pub name_size: u32,
    pub value_size: u32,
    pub value: CamfValue,
}

/// A metadata section: its header, and its body once it is loaded.
#[derive(Debug)]
pub struct Camf {
    pub type_: u32,
    /// What the next four mean depends on the type: for an encrypted body the
    /// last one is the key; for a coded one they are the decoded size, the
    /// seed, and the columns and rows of the block grid.
    pub val0: u32,
    pub val1: u32,
    pub val2: u32,
    pub val3: u32,
    pub data: Vec<u8>,
    pub table: Vec<TrueHuffmanElement>,
    pub tree: HuffTree,
    pub decoding_size: u32,
    pub decoded_data: Vec<u8>,
    pub entries: Vec<CamfEntry>,
}

/// A decoded body, with the code table that it was decoded by.
#[derive(Debug)]
pub struct CamfBody {
    pub table: Vec<TrueHuffmanElement>,
    pub tree: HuffTree,
    pub decoding_size: u32,
    pub decoded_data: Vec<u8>,
}

/// The number of entries, at most fourteen, of the code table at the start of
/// a coded body: it ends with a code size of zero.
pub open spec fn camf_table_len(data: Seq<u8>, i: int) -> int
    decreases 14 - i,
{
    if i < 14 && data[2 * i] != 0 {
        camf_table_len(data, i + 1)
    } else {
        i
    }
}

/// The code table at the start of a coded body.
pub open spec fn camf_table(data: Seq<u8>) -> Seq<TrueHuffmanElement> {
    Seq::new(
        camf_table_len(data, 0) as nat,
        |i: int| TrueHuffmanElement { code_size: data[2 * i], code: data[2 * i + 1] },
    )
}

impl Camf {
    /// The coded body as a plane of samples, given the tree of its codes.
    pub open spec fn plane(self, nodes: Seq<HuffNode>) -> TruePlane {
        TruePlane {
            nodes,
            bytes: self.data@.subrange(32, 32 + le32(self.data@, 28)),
            seed: self.val1 as i32 as int,
            columns: self.val2 as nat,
            overflow: Error::InvalidData("CAMF predictor overflow"),
        }
    }

    /// The samples of a block-coded body that are decoded.
    pub open spec fn block_samples(self) -> int {
        let available = self.val3 * self.val2;
        if available < samples_needed(self.val0 as int) {
            available
        } else {
            samples_needed(self.val0 as int)
        }
    }

    /// What is wrong with a body before any of its codes are read.
    pub open spec fn body_setup_error(self) -> Option<Error> {
        let data = self.data@;
        if self.type_ == 2 {
            if data.len() > MAX_ALLOCATION {
                Some(Error::Allocation)
            } else {
                None
            }
        } else if self.type_ != 4 && self.type_ != 5 {
            Some(Error::InvalidData("unsupported CAMF encoding"))
        } else if data.len() < 32 {
            Some(Error::InvalidData("value outside section"))
        } else if camf_table_len(data, 0) == 14 {
            Some(Error::InvalidData("unterminated CAMF Huffman table"))
        } else if le32(data, 28) > data.len() - 32 {
            Some(Error::InvalidData("CAMF bitstream outside section"))
        } else if true_tree_error(camf_table(data)) is Some {
            true_tree_error(camf_table(data))
        } else if self.val0 == 0 {
            Some(Error::InvalidData("empty decoded CAMF"))
        } else if self.val0 > MAX_ALLOCATION {
            Some(Error::Allocation)
        } else if self.type_ == 4 && (self.val3 == 0 || self.val2 == 0) {
            Some(Error::InvalidData("empty CAMF block grid"))
        } else if self.type_ == 4 && self.val3 * self.val2 > MAX_ALLOCATION {
            Some(Error::Allocation)
        } else {
            None
        }
    }

    /// The first error among a body's codes, given the tree of its codes.
    pub open spec fn body_code_error(self, nodes: Seq<HuffNode>) -> Option<Error> {
        if self.type_ == 2 {
            None
        } else if self.type_ == 4 {
            self.plane(nodes).error(self.block_samples() as nat)
        } else {
            diff_error(self.plane(nodes), self.val0 as nat)
        }
    }

    /// The decoded body, given the tree of its codes.
    pub open spec fn decoded_body(self, nodes: Seq<HuffNode>) -> Seq<u8> {
        let plane = self.plane(nodes);
        if self.type_ == 2 {
            decrypted(self.data@, self.val3 as int)
        } else if self.type_ == 4 {
            Seq::new(self.val0 as nat, |k: int| packed12(plane, self.block_samples(), k))
        } else {
            Seq::new(self.val0 as nat, |k: int| accumulated(plane, k))
        }
    }

    /// Whether `nodes` is the tree by which a coded body is read.
    pub open spec fn is_body_tree(self, nodes: Seq<HuffNode>) -> bool {
        let table = camf_table(self.data@);
        if self.type_ == 2 {
            nodes.len() == 0
        } else {
            code_tree(nodes, true_codes(table, table.len()))
        }
    }

    /// Whether decoding fails with `error`.
    pub open spec fn body_fails(self, error: Error) -> bool {
        match self.body_setup_error() {
            Some(e) => e == error,
            None => exists|nodes: Seq<HuffNode>|
                self.is_body_tree(nodes) && #[trigger] self.body_code_error(nodes) == Some(error),
        }
    }

    /// Whether this is the decoded body, with the code table, tree and number of
    /// coded bytes that it was decoded by.
    pub open spec fn body_is(
        self,
        table: Seq<TrueHuffmanElement>,
        nodes: Seq<HuffNode>,
        decoding_size: u32,
        decoded: Seq<u8>,
    ) -> bool {
        &&& self.body_setup_error() is None
        &&& self.is_body_tree(nodes)
        &&& self.body_code_error(nodes) is None
        &&& decoded == self.decoded_body(nodes)
        &&& if self.type_ == 2 {
            table.len() == 0 && decoding_size == 0
        } else {
            table == camf_table(self.data@) && decoding_size == le32(self.data@, 28)
        }
    }
}

/// Reads the code table at the start of a coded body.
fn read_camf_table(data: &[u8]) -> (r: Vec<TrueHuffmanElement>)
    requires
        data@.len() >= 28,
    ensures
        r@ == camf_table(data@),
        r@.len() == camf_table_len(data@, 0),
{
    let mut table: Vec<TrueHuffmanElement> = Vec::new();
    let mut i: usize = 0;
    while i < 14 && data[2 * i] != 0
        invariant
            i <= 14,
            data@.len() >= 28,
            camf_table_len(data@, 0) == camf_table_len(data@, i as int),
            table@.len() == i,
            forall|k: int|
                0 <= k < i ==> #[trigger] table@[k] == (TrueHuffmanElement {
                    code_size: data@[2 * k],
                    code: data@[2 * k + 1],
                }),
        decreases 14 - i,
    {
        table.push(TrueHuffmanElement { code_size: data[2 * i], code: data[2 * i + 1] });
        i = i + 1;
    }
    assert(table@ =~= camf_table(data@));
    table
}

/// Decrypts or decodes the body of a metadata section.
pub fn decode_camf(camf: &Camf, control: Control<'_>) -> (r: Result<CamfBody, Error>)
    ensures
        match r {
            Ok(body) => {
                &&& camf.body_is(
                    body.table@,
                    body.tree.nodes@,
                    body.decoding_size,
                    body.decoded_data@,
                )
                &&& camf.data@.len() > 0 ==> control.may_read(false)
            },
            Err(Error::Cancelled) => control.may_read(true),
            Err(e) => camf.body_fails(e),
        },
{
    let data: &[u8] = camf.data.as_slice();
    if camf.type_ == 2 {
        let decoded_data: Vec<u8> = decrypt(&camf.data, camf.val3, control)?;
        return Ok(
            CamfBody {
                table: Vec::new(),
                tree: HuffTree::empty(),
                decoding_size: 0,
                decoded_data,
            },
        );
    }
    if camf.type_ != 4 && camf.type_ != 5 {
        return Err(Error::InvalidData("unsupported CAMF encoding"));
    }
    bytes_at(data, 0, 32)?;
    let table: Vec<TrueHuffmanElement> = read_camf_table(data);
    if table.len() == 14 {
        return Err(Error::InvalidData("unterminated CAMF Huffman table"));
    }
    let decoding_size: u32 = u32_at(data, 28)?;
    if decoding_size as usize > data.len() - 32 {
        return Err(Error::InvalidData("CAMF bitstream outside section"));
    }
    let tree: HuffTree = true_tree(&table)?;
    let size: usize = camf.val0 as usize;
    if size == 0 {
        return Err(Error::InvalidData("empty decoded CAMF"));
    }
    if size > MAX_ALLOCATION {
        return Err(Error::Allocation);
    }
    let bytes: &[u8] = slice_subrange(data, 32, 32 + decoding_size as usize);
    let seed: i32 = camf.val1 as i32;
    let ghost nodes = tree.nodes@;
    assert(camf.is_body_tree(nodes));
    let decoded_data: Vec<u8> = if camf.type_ == 5 {
        match decode_accumulated(bytes, &tree, seed, size, control, Ghost(camf.plane(nodes))) {
            Ok(decoded) => decoded,
            Err(e) => {
                assert(e is Cancelled || camf.body_code_error(nodes) == Some(e));
                return Err(e);
            },
        }
    } else {
        let (rows, columns): (u32, u32) = (camf.val3, camf.val2);
        if rows == 0 || columns == 0 {
            return Err(Error::InvalidData("empty CAMF block grid"));
        }
        checked_size(rows as usize, columns as usize)?;
        assert(rows * columns > 0) by (nonlinear_arith)
            requires
                rows > 0,
                columns > 0,
        ;
        match decode_blocks(bytes, &tree, seed, rows, columns, size, control) {
            Ok(decoded) => decoded,
            Err(e) => {
                assert(e is Cancelled || camf.body_code_error(nodes) == Some(e));
                return Err(e);
            },
        }
    };
    assert(decoded_data@ =~= camf.decoded_body(nodes));
    Ok(CamfBody { table, tree, decoding_size, decoded_data })
}

/// The mask of a key is the place of the key among all keys, scaled to a byte.
pub proof fn law_masks_scale_the_key(key: int)
    requires
        0 <= key < 244944,
    ensures
        key_mask(key) == 256 * key / 244944,
        0 <= key_mask(key) < 256,
{
    let q = 256 * key / 244944;
    let scaled = key * 4_596_560_467;
    assert(244944 * scaled == 0x4_0000_0000_0000 * key + 186_224 * key);
    assert(q * 0x400_0000_0000 <= scaled < (q + 1) * 0x400_0000_0000);
    let t = key * 301_593_171 / 0x100_0000;
    let s = 256 * key + t;
    assert(s * 0x100_0000 <= scaled < (s + 1) * 0x100_0000);
    assert(q * 0x4_0000 <= s < (q + 1) * 0x4_0000);
    let half = (key * 256 - t) / 2 + t;
    assert(2 * half <= s <= 2 * half + 1);
    assert(q * 0x2_0000 <= half < (q + 1) * 0x2_0000);
}

/// A known stream of keys is the stream of its first one.
proof fn lemma_keys(keys: spec_fn(int) -> int, n: int, i: nat)
    requires
        i <= n,
        forall|j: int|
            0 <= j < n ==> #[trigger] keys(j + 1) == (keys(j) * 1597 + 51749) % 244944,
    ensures
        key_at(keys(0), i) == keys(i as int),
    decreases i,
{
    if i > 0 {
        lemma_keys(keys, n, (i - 1) as nat);
        assert(keys(i - 1 + 1) == (keys(i - 1) * 1597 + 51749) % 244944);
    }
}

/// An encrypted body is decrypted byte by byte. The key goes on before each byte,
/// from the one in the header, and the byte is combined with the mask of the key
/// that it comes to: the first byte with that of the key after the header's.
pub proof fn law_bytes_are_decrypted_by_their_keys(
    camf: Camf,
    table: Seq<TrueHuffmanElement>,
    nodes: Seq<HuffNode>,
    decoding_size: u32,
    decoded: Seq<u8>,
    keys: spec_fn(int) -> int,
    i: int,
)
    requires
        camf.type_ == 2,
        camf.body_is(table, nodes, decoding_size, decoded),
        keys(0) == camf.val3,
        forall|j: int|
            0 <= j < camf.data@.len() ==> #[trigger] keys(j + 1) == (keys(j) * 1597 + 51749)
                % 244944,
        0 <= i < camf.data@.len(),
    ensures
        decoded.len() == camf.data@.len(),
        decoded[i] == camf.data@[i] ^ ((256 * keys(i + 1) / 244944) as u8),
{
    lemma_keys(keys, camf.data@.len() as int, (i + 1) as nat);
    assert(keys(i + 1) == (keys(i) * 1597 + 51749) % 244944);
    law_masks_scale_the_key(keys(i + 1));
}

/// Decryption can go on from any byte: what follows it is decrypted as a section
/// of its own would be with the key that has been come to.
pub proof fn law_decryption_goes_on_from_any_byte(
    data: Seq<u8>,
    keys: spec_fn(int) -> int,
    i: int,
)
    requires
        0 <= i <= data.len(),
        forall|j: int|
            0 <= j < data.len() ==> #[trigger] keys(j + 1) == (keys(j) * 1597 + 51749) % 244944,
    ensures
        decrypted(data, keys(0)).len() == data.len(),
        decrypted(data, keys(0)).skip(i) == decrypted(data.skip(i), keys(i)),
{
    let n = data.len() as int;
    let shifted = |j: int| keys(i + j);
    let (all, rest) = (decrypted(data, keys(0)), decrypted(data.skip(i), keys(i)));
    assert forall|j: int| 0 <= j < n - i implies #[trigger] shifted(j + 1) == (shifted(j) * 1597
        + 51749) % 244944 by {
        assert(keys(i + j + 1) == (keys(i + j) * 1597 + 51749) % 244944);
        assert(i + (j + 1) == i + j + 1);
    }
    assert forall|k: int| 0 <= k < n - i implies all.skip(i)[k] == #[trigger] rest[k] by {
        lemma_keys(keys, n, (i + k + 1) as nat);
        lemma_keys(shifted, n - i, (k + 1) as nat);
        assert(shifted(0) == keys(i));
        assert(shifted(k + 1) == keys(i + (k + 1)));
        assert(i + (k + 1) == i + k + 1);
    }
    assert(all.skip(i) =~= rest);
}

/// The code table of a coded body is the pairs of a size and a code up to the
/// first size of zero.
pub proof fn law_tables_end_with_a_zero(
    camf: Camf,
    table: Seq<TrueHuffmanElement>,
    nodes: Seq<HuffNode>,
    decoding_size: u32,
    decoded: Seq<u8>,
    n: int,
)
    requires
        camf.type_ == 4 || camf.type_ == 5,
        camf.body_is(table, nodes, decoding_size, decoded),
        0 <= n,
        camf.data@[2 * n] == 0,
        forall|i: int| 0 <= i < n ==> #[trigger] camf.data@[2 * i] != 0,
    ensures
        table.len() == n,
        forall|i: int|
            #![trigger table[i]]
            0 <= i < n ==> table[i].code_size == camf.data@[2 * i] && table[i].code
                == camf.data@[2 * i + 1],
        code_tree(nodes, true_codes(table, table.len())),
{
    lemma_table_len(camf.data@, n, 0);
}

/// A table is as long as there are sizes before the first zero.
proof fn lemma_table_len(data: Seq<u8>, n: int, i: int)
    requires
        0 <= i <= n,
        i <= 14,
        data[2 * n] == 0,
        forall|j: int| 0 <= j < n ==> #[trigger] data[2 * j] != 0,
        camf_table_len(data, i) != 14,
    ensures
        camf_table_len(data, i) == n,
    decreases n - i,
{
    if i < 14 && i < n {
        assert(data[2 * i] != 0);
        lemma_table_len(data, n, i + 1);
    }
}

/// The halves of a byte.
proof fn lemma_halves(bytes: Seq<u8>, i: int)
    requires
        0 <= i < bytes.len(),
    ensures
        bits_value(bytes, 8 * i, 4) == bytes[i] / 16,
        bits_value(bytes, 8 * i + 4, 4) == bytes[i] % 16,
        bits_value(bytes, 8 * i, 8) == bytes[i],
{
    lemma2_to64();
    law_bytes_are_bits(bytes, i);
    law_bits_join(bytes, 8 * i, 4, 4);
    reveal_with_fuel(bits_value, 5);
    lemma_bit_at(bytes, 8 * i + 4);
    lemma_bit_at(bytes, 8 * i + 5);
    lemma_bit_at(bytes, 8 * i + 6);
    lemma_bit_at(bytes, 8 * i + 7);
}

/// What the bits of a block-coded body are.
proof fn lemma_blocks(
    camf: Camf,
    table: Seq<TrueHuffmanElement>,
    nodes: Seq<HuffNode>,
    decoding_size: u32,
    decoded: Seq<u8>,
    raster: spec_fn(int, int) -> int,
    starts: spec_fn(int) -> int,
    row: int,
    column: int,
)
    requires
        camf.type_ == 4,
        camf.body_is(table, nodes, decoding_size, decoded),
        0 <= row < camf.val3,
        0 <= column < camf.val2,
        ({
            let size = camf.data@[28] + 0x100 * camf.data@[29] + 0x1_0000 * camf.data@[30]
                + 0x100_0000 * camf.data@[31];
            let bytes = camf.data@.subrange(32, 32 + size);
            codes_raster(
                nodes,
                bytes,
                camf.val1 as i32 as int,
                camf.val3 as int,
                camf.val2 as int,
                raster,
                starts,
            )
        }),
    ensures
        decoded.len() == camf.val0,
        ({
            let m = row * camf.val2 + column;
            &&& 12 * m + 12 <= 8 * decoded.len() ==> bits_value(decoded, 12 * m, 12) == raster(
                row,
                column,
            ) % 4096
            &&& 12 * m + 8 == 8 * decoded.len() ==> bits_value(decoded, 12 * m, 8) == raster(
                row,
                column,
            ) % 4096 / 16
            &&& 12 * m + 4 == 8 * decoded.len() ==> bits_value(decoded, 12 * m, 4) == raster(
                row,
                column,
            ) % 4096 / 256
        }),
        forall|k: int|
            #![trigger decoded[k]]
            12 * camf.val3 * camf.val2 <= 8 * k && k < decoded.len() ==> decoded[k] == 0,
{
    let data = camf.data@;
    let plane = camf.plane(nodes);
    let columns = camf.val2 as int;
    let m = row * columns + column;
    let n = camf.block_samples();
    let total = camf.val3 * camf.val2;
    assert(12 * camf.val3 * camf.val2 == 12 * total) by (nonlinear_arith)
        requires
            total == camf.val3 * camf.val2,
    ;
    let size = data[28] + 0x100 * data[29] + 0x1_0000 * data[30] + 0x100_0000 * data[31];
    assert(plane.bytes == data.subrange(32, 32 + size));
    lemma_coded_samples(plane, raster, starts, camf.val3 as int, row, column);
    vstd::arithmetic::div_mod::lemma_fundamental_div_mod_converse(m, columns, row, column);
    assert(0 <= m < total) by (nonlinear_arith)
        requires
            m == row * columns + column,
            total == camf.val3 * columns,
            0 <= row < camf.val3,
            0 <= column < columns,
    ;
    let w = raster(row, column) % 4096;
    assert(word12(plane, m) == w);
    let q = m / 2;
    lemma2_to64();
    if 12 * m + 4 <= 8 * decoded.len() {
        assert(m < n);
        if m % 2 == 0 {
            assert(m == 2 * q);
            if 12 * m + 8 <= 8 * decoded.len() {
                assert(decoded[3 * q] == packed12(plane, n, 3 * q));
                assert((3 * q) / 3 == q && (3 * q) % 3 == 0);
                lemma_halves(decoded, 3 * q);
                assert(8 * (3 * q) == 12 * m);
            }
            if 12 * m + 12 <= 8 * decoded.len() {
                assert(decoded[3 * q + 1] == packed12(plane, n, 3 * q + 1));
                assert((3 * q + 1) / 3 == q && (3 * q + 1) % 3 == 1);
                assert(m + 1 < n ==> 0 <= word12(plane, m + 1) < 4096);
                lemma_halves(decoded, 3 * q + 1);
                law_bits_join(decoded, 12 * m, 8, 4);
                assert(8 * (3 * q + 1) == 12 * m + 8);
            }
        } else {
            assert(m == 2 * q + 1);
            assert(decoded[3 * q + 1] == packed12(plane, n, 3 * q + 1));
            assert((3 * q + 1) / 3 == q && (3 * q + 1) % 3 == 1);
            assert(0 <= word12(plane, m - 1) < 4096);
            lemma_halves(decoded, 3 * q + 1);
            assert(8 * (3 * q + 1) + 4 == 12 * m);
            if 12 * m + 12 <= 8 * decoded.len() {
                assert(decoded[3 * q + 2] == packed12(plane, n, 3 * q + 2));
                assert((3 * q + 2) / 3 == q && (3 * q + 2) % 3 == 2);
                lemma_halves(decoded, 3 * q + 2);
                law_bits_join(decoded, 12 * m, 4, 8);
                assert(8 * (3 * q + 2) == 12 * m + 4);
            }
        }
    }
    assert forall|k: int|
        #![trigger decoded[k]]
        12 * total <= 8 * k && k < decoded.len() implies decoded[k] == 0 by {
        assert(decoded[k] == packed12(plane, n, k));
    }
}

/// Decoding a block-coded body inverts encoding it. Where the coded bytes hold the
/// differences of a grid of samples, the body is the low twelve bits of each, one
/// after the other, most significant bits first, as far as the body goes; what it
/// has beyond them is zero.
pub proof fn law_blocks_are_read_back(
    camf: Camf,
    table: Seq<TrueHuffmanElement>,
    nodes: Seq<HuffNode>,
    decoding_size: u32,
    decoded: Seq<u8>,
    raster: spec_fn(int, int) -> int,
    starts: spec_fn(int) -> int,
    row: int,
    column: int,
)
    requires
        camf.type_ == 4,
        camf.body_is(table, nodes, decoding_size, decoded),
        0 <= row < camf.val3,
        0 <= column < camf.val2,
        ({
            let size = camf.data@[28] + 0x100 * camf.data@[29] + 0x1_0000 * camf.data@[30]
                + 0x100_0000 * camf.data@[31];
            let bytes = camf.data@.subrange(32, 32 + size);
            &&& starts(0) == 0
            &&& forall|r: int, c: int|
                0 <= r < camf.val3 && 0 <= c < camf.val2 ==> spec_true_diff(
                    nodes,
                    bytes,
                    starts(r * camf.val2 + c),
                ) == Ok::<(int, int), Error>(
                    (
                        #[trigger] raster(r, c) - (if c >= 2 {
                            raster(r, c - 2)
                        } else if r >= 2 {
                            raster(r - 2, c)
                        } else {
                            camf.val1 as i32 as int
                        }),
                        starts(r * camf.val2 + c + 1),
                    ),
                )
        }),
    ensures
        decoded.len() == camf.val0,
        ({
            let m = row * camf.val2 + column;
            &&& 12 * m + 12 <= 8 * decoded.len() ==> bits_value(decoded, 12 * m, 12) == raster(
                row,
                column,
            ) % 4096
            &&& 12 * m + 8 == 8 * decoded.len() ==> bits_value(decoded, 12 * m, 8) == raster(
                row,
                column,
            ) % 4096 / 16
            &&& 12 * m + 4 == 8 * decoded.len() ==> bits_value(decoded, 12 * m, 4) == raster(
                row,
                column,
            ) % 4096 / 256
        }),
        forall|k: int|
            #![trigger decoded[k]]
            12 * camf.val3 * camf.val2 <= 8 * k && k < decoded.len() ==> decoded[k] == 0,
{
    let data = camf.data@;
    let size = data[28] + 0x100 * data[29] + 0x1_0000 * data[30] + 0x100_0000 * data[31];
    let bytes = data.subrange(32, 32 + size);
    let seed = camf.val1 as i32 as int;
    let (rows, columns) = (camf.val3 as int, camf.val2 as int);
    assert forall|r: int, c: int| 0 <= r < rows && 0 <= c < columns implies #[trigger] is_coded(
        nodes,
        bytes,
        seed,
        columns,
        raster,
        starts,
        r,
        c,
    ) by {
        let v = raster(r, c);
    }
    lemma_blocks(
        camf,
        table,
        nodes,
        decoding_size,
        decoded,
        raster,
        starts,
        row,
        column,
    );
}

/// Decoding an accumulating body inverts encoding it: where the coded bytes hold,
/// byte by byte, the difference to the byte before (to the seed, at the first one),
/// in eight bits, the body is those bytes.
pub proof fn law_accumulated_bytes_are_read_back(
    camf: Camf,
    table: Seq<TrueHuffmanElement>,
    nodes: Seq<HuffNode>,
    decoding_size: u32,
    decoded: Seq<u8>,
    plain: Seq<u8>,
    differences: spec_fn(int) -> int,
    starts: spec_fn(int) -> int,
)
    requires
        camf.type_ == 5,
        camf.body_is(table, nodes, decoding_size, decoded),
        plain.len() == camf.val0,
        starts(0) == 0,
        ({
            let size = camf.data@[28] + 0x100 * camf.data@[29] + 0x1_0000 * camf.data@[30]
                + 0x100_0000 * camf.data@[31];
            let bytes = camf.data@.subrange(32, 32 + size);
            forall|k: int|
                0 <= k < plain.len() ==> {
                    &&& spec_true_diff(nodes, bytes, starts(k)) == Ok::<(int, int), Error>(
                        (#[trigger] differences(k), starts(k + 1)),
                    )
                    &&& (plain[k] - (if k == 0 {
                        camf.val1 as int
                    } else {
                        plain[k - 1] as int
                    }) - differences(k)) % 256 == 0
                }
        }),
    ensures
        decoded == plain,
{
    let plane = camf.plane(nodes);
    let v = camf.val1;
    assert(v as i32 >= 0 ==> v as i32 == v) by (bit_vector);
    assert((v as i32) < 0 ==> v as i32 == v - 0x1_0000_0000) by (bit_vector);
    assert forall|k: int| 0 <= k < plain.len() implies decoded[k] == plain[k] by {
        lemma_accumulated_sums(plane, plain, differences, starts, v as int, k as nat);
    }
    assert(decoded =~= plain);
}

/// The running sums of known differences.
proof fn lemma_accumulated_sums(
    plane: TruePlane,
    plain: Seq<u8>,
    differences: spec_fn(int) -> int,
    starts: spec_fn(int) -> int,
    seed: int,
    k: nat,
)
    requires
        k < plain.len(),
        starts(0) == 0,
        (seed - plane.seed) % 256 == 0,
        forall|k: int|
            0 <= k < plain.len() ==> {
                &&& spec_true_diff(plane.nodes, plane.bytes, starts(k)) == Ok::<
                    (int, int),
                    Error,
                >((#[trigger] differences(k), starts(k + 1)))
                &&& (plain[k] - (if k == 0 {
                    seed
                } else {
                    plain[k - 1] as int
                }) - differences(k)) % 256 == 0
            },
    ensures
        plane.diff_start(k) == Some(starts(k as int)),
        (plane.seed + diff_sum(plane, k + 1)) % 256 == plain[k as int],
    decreases k,
{
    let d = differences(k as int);
    if k == 0 {
        assert(diff_sum(plane, 0) == 0);
    } else {
        let before = differences(k - 1);
        lemma_accumulated_sums(plane, plain, differences, starts, seed, (k - 1) as nat);
        assert(plane.diff((k - 1) as nat) == Ok::<(int, int), Error>(
            (before, starts(k - 1 + 1)),
        ));
        assert((k - 1) as nat + 1 == k);
    }
    assert(plane.diff(k) == Ok::<(int, int), Error>((d, starts(k as int + 1))));
    assert(diff_sum(plane, k + 1) == diff_sum(plane, k) + d);
    lemma_next_sum(
        plane.seed + diff_sum(plane, k),
        d,
        if k == 0 {
            seed
        } else {
            plain[k - 1] as int
        },
        plain[k as int] as int,
    );
}

/// A running sum in eight bits reaches the next value by the difference to it.
proof fn lemma_next_sum(sum: int, difference: int, before: int, value: int)
    requires
        (before - sum) % 256 == 0,
        0 <= value < 256,
        (value - before - difference) % 256 == 0,
    ensures
        (sum + difference) % 256 == value,
{
}

/// A body has nothing wrong before its codes are read if it is encrypted; or if it is a coded
/// one whose code table ends, whose coded bytes lie in the section, and whose decoded size is
/// neither zero nor too large, nor that of the grid of a block-coded one.
pub proof fn law_bodies_are_set_up(camf: Camf, n: int)
    requires
        camf.type_ == 2 ==> camf.data@.len() <= MAX_ALLOCATION,
        camf.type_ != 2 ==> {
            let data = camf.data@;
            let size = data[28] + 0x100 * data[29] + 0x1_0000 * data[30] + 0x100_0000 * data[31];
            &&& camf.type_ == 4 || camf.type_ == 5
            &&& 0 <= n < 14
            &&& data[2 * n] == 0
            &&& 32 + size <= data.len()
            &&& true_tree_error(camf_table(data)) is None
            &&& 0 < camf.val0 <= MAX_ALLOCATION
            &&& camf.type_ == 4 ==> 0 < camf.val2 && 0 < camf.val3 && camf.val3 * camf.val2
                <= MAX_ALLOCATION
        },
    ensures
        camf.body_setup_error() is None,
{
    if camf.type_ != 2 {
        lemma_table_stops(camf.data@, n, 0);
    }
}

proof fn lemma_table_stops(data: Seq<u8>, n: int, i: int)
    requires
        0 <= i <= n < 14,
        data[2 * n] == 0,
    ensures
        camf_table_len(data, i) <= n,
    decreases n - i,
{
    if data[2 * i] != 0 {
        lemma_table_stops(data, n, i + 1);
    }
}

/// A block-coded body whose coded bytes hold the differences of a grid of 32-bit samples, and
/// an accumulating one whose coded bytes hold as many differences as it has bytes, are
/// decoded without an error.
pub proof fn law_coded_bodies_decode(
    camf: Camf,
    nodes: Seq<HuffNode>,
    raster: spec_fn(int, int) -> int,
    differences: spec_fn(int) -> int,
    starts: spec_fn(int) -> int,
)
    requires
        camf.type_ == 4 || camf.type_ == 5,
        starts(0) == 0,
        ({
            let data = camf.data@;
            let size = data[28] + 0x100 * data[29] + 0x1_0000 * data[30] + 0x100_0000 * data[31];
            let bytes = data.subrange(32, 32 + size);
            &&& camf.type_ == 4 ==> {
                &&& camf.val2 > 0
                &&& codes_raster(
                    nodes,
                    bytes,
                    camf.val1 as i32 as int,
                    camf.val3 as int,
                    camf.val2 as int,
                    raster,
                    starts,
                )
                &&& forall|r: int, c: int|
                    0 <= r < camf.val3 && 0 <= c < camf.val2 ==> i32::MIN <= #[trigger] raster(r, c)
                        <= i32::MAX
            }
            &&& camf.type_ == 5 ==> forall|k: int|
                0 <= k < camf.val0 ==> spec_true_diff(nodes, bytes, starts(k)) == Ok::<
                    (int, int),
                    Error,
                >((#[trigger] differences(k), starts(k + 1)))
        }),
    ensures
        camf.body_code_error(nodes) is None,
{
    let data = camf.data@;
    let plane = camf.plane(nodes);
    let size = data[28] + 0x100 * data[29] + 0x1_0000 * data[30] + 0x100_0000 * data[31];
    assert(plane.bytes == data.subrange(32, 32 + size));
    if camf.type_ == 4 {
        law_coded_planes_decode(plane, raster, starts, camf.val3 as int);
        let n = camf.block_samples() as nat;
        let total = (camf.val3 * plane.columns) as nat;
        if plane.error(n) is Some {
            plane.lemma_error_stays(n, total);
        }
    } else {
        lemma_differences_read(plane, differences, starts, camf.val0 as nat);
    }
}

proof fn lemma_differences_read(
    plane: TruePlane,
    differences: spec_fn(int) -> int,
    starts: spec_fn(int) -> int,
    n: nat,
)
    requires
        starts(0) == 0,
        forall|k: int|
            0 <= k < n ==> spec_true_diff(plane.nodes, plane.bytes, starts(k)) == Ok::<
                (int, int),
                Error,
            >((#[trigger] differences(k), starts(k + 1))),
    ensures
        plane.diff_start(n) == Some(starts(n as int)),
        diff_error(plane, n) is None,
    decreases n,
{
    if n > 0 {
        let k = n - 1;
        lemma_differences_read(plane, differences, starts, k as nat);
        let d = differences(k);
        assert(plane.diff(k as nat) == Ok::<(int, int), Error>((d, starts(k + 1))));
    }
}

} // verus!
