//! The Huffman and packed decoders of the older cameras.

use crate::control::{Control, Error};
use crate::entropy::{read_leaf, spec_read_leaf, BitReader};
use crate::parse::le32;
use crate::types::{
    HuffNode, Huffman, ImageData, X3F_IMAGE_RAW_HUFFMAN_10BIT, X3F_IMAGE_RAW_HUFFMAN_X530,
    X3F_IMAGE_THUMB_HUFFMAN,
};
use vstd::arithmetic::power2::{lemma2_to64, pow2};
use vstd::prelude::*;
use vstd::slice::slice_subrange;

verus! {

/// The value that the older cameras' decoders start a row from, and whether
/// they look for a better one when a sample comes out negative.
#[derive(Clone, Copy, Debug, PartialEq, Eq, Structural)]
pub struct LegacyOffset {
    pub legacy_offset: i32,
    pub auto_legacy_offset: bool,
}

impl Default for LegacyOffset {
    /// No offset, corrected automatically.
    fn default() -> (r: Self)
        ensures
            r.legacy_offset == 0,
            r.auto_legacy_offset,
    {
        LegacyOffset { legacy_offset: 0, auto_legacy_offset: true }
    }
}

/// Whether the format is decoded into 16-bit samples.
pub open spec fn is_huffman16(t: u32) -> bool {
    t == X3F_IMAGE_RAW_HUFFMAN_X530 || t == X3F_IMAGE_RAW_HUFFMAN_10BIT
}

/// What keeps a decoded sample from being stored.
pub open spec fn store_error(t: u32, huf: Huffman) -> Option<Error> {
    if is_huffman16(t) {
        if huf.x3rgb16.data@.len() == 0 {
            Some(Error::InvalidData("missing Huffman output"))
        } else {
            None
        }
    } else if t == X3F_IMAGE_THUMB_HUFFMAN {
        if huf.rgb8.data@.len() == 0 {
            Some(Error::InvalidData("missing Huffman thumbnail output"))
        } else {
            None
        }
    } else {
        Some(Error::InvalidData("unsupported Huffman format"))
    }
}

/// The buffers that exist hold `count` samples.
pub open spec fn stores_hold(huf: Huffman, count: int) -> bool {
    &&& huf.x3rgb16.data@.len() == 0 || count <= huf.x3rgb16.data@.len()
    &&& huf.rgb8.data@.len() == 0 || count <= huf.rgb8.data@.len()
}

/// The same image, but for what its rasters hold.
pub open spec fn same_but_store(a: Huffman, b: Huffman) -> bool {
    &&& a.mapping == b.mapping
    &&& a.table == b.table
    &&& a.tree == b.tree
    &&& a.row_offsets == b.row_offsets
    &&& a.rgb8.same_shape(b.rgb8)
    &&& a.x3rgb16.same_shape(b.x3rgb16)
}

/// Stores sample `index` of an image of the older cameras.
fn write_huffman_pixel(t: u32, huf: &mut Huffman, index: usize, value: u32) -> (r: Result<
    (),
    Error,
>)
    requires
        stores_hold(*old(huf), index + 1),
    ensures
        same_but_store(*final(huf), *old(huf)),
        match r {
            Ok(_) => {
                &&& store_error(t, *old(huf)) is None
                &&& final(huf).x3rgb16.data@ == (if is_huffman16(t) {
                    old(huf).x3rgb16.data@.update(index as int, value as u16)
                } else {
                    old(huf).x3rgb16.data@
                })
                &&& final(huf).rgb8.data@ == (if is_huffman16(t) {
                    old(huf).rgb8.data@
                } else {
                    old(huf).rgb8.data@.update(index as int, value as u8)
                })
            },
            Err(e) => store_error(t, *old(huf)) == Some(e) && *final(huf) == *old(huf),
        },
{
    if t == X3F_IMAGE_RAW_HUFFMAN_X530 || t == X3F_IMAGE_RAW_HUFFMAN_10BIT {
        if huf.x3rgb16.data.len() == 0 {
            return Err(Error::InvalidData("missing Huffman output"));
        }
        huf.x3rgb16.data.set(index, value as u16);
        Ok(())
    } else if t == X3F_IMAGE_THUMB_HUFFMAN {
        if huf.rgb8.data.len() == 0 {
            return Err(Error::InvalidData("missing Huffman thumbnail output"));
        }
        huf.rgb8.data.set(index, value as u8);
        Ok(())
    } else {
        Err(Error::InvalidData("unsupported Huffman format"))
    }
}

/// A Huffman-coded row: its code tree, its bytes, and the value that its three
/// accumulators start from.
pub ghost struct HuffRow {
    pub nodes: Seq<HuffNode>,
    pub bytes: Seq<u8>,
    pub offset: i16,
}

impl HuffRow {
    /// The bit at which code `k` starts, if the ones before it can be read.
    pub open spec fn code_start(self, k: nat) -> Option<int>
        decreases k,
    {
        if k == 0 {
            Some(0)
        } else {
            match self.code_start((k - 1) as nat) {
                None => None,
                Some(p) => match spec_read_leaf(self.nodes, self.bytes, p) {
                    Ok((_, q)) => Some(q),
                    Err(_) => None,
                },
            }
        }
    }

    /// What reading code `k` gives, if the ones before it can be read.
    pub open spec fn code(self, k: nat) -> Result<(u32, int), Error> {
        spec_read_leaf(self.nodes, self.bytes, self.code_start(k)->0)
    }

    /// Sample `k` of the row, three to a pixel: the running sum of the codes of
    /// its colour, in 16 bits.
    #[verifier::opaque]
    pub open spec fn value(self, k: nat) -> i16
        decreases k,
    {
        let difference = match self.code(k) {
            Ok((leaf, _)) => leaf as i16,
            Err(_) => 0i16,
        };
        let previous = if k < 3 {
            self.offset
        } else {
            self.value((k - 3) as nat)
        };
        previous.wrapping_add(difference)
    }

    /// The stored form of sample `k`.
    pub open spec fn stored(self, k: nat) -> u32 {
        if self.value(k) > 0 {
            self.value(k) as u32
        } else {
            0
        }
    }

    /// The first error among the first `k` samples.
    #[verifier::opaque]
    pub open spec fn error(self, k: nat, store: Option<Error>) -> Option<Error>
        decreases k,
    {
        if k == 0 {
            None
        } else {
            match self.error((k - 1) as nat, store) {
                Some(e) => Some(e),
                None => match self.code((k - 1) as nat) {
                    Err(e) => Some(e),
                    Ok(_) => store,
                },
            }
        }
    }

    /// The least of zero and the first `k` samples.
    #[verifier::opaque]
    pub open spec fn lowest(self, k: nat) -> int
        decreases k,
    {
        if k == 0 {
            0
        } else {
            let v = self.value((k - 1) as nat) as int;
            let m = self.lowest((k - 1) as nat);
            if v < m {
                v
            } else {
                m
            }
        }
    }

    pub proof fn lemma_error_stays(self, j: nat, k: nat, store: Option<Error>)
        requires
            j <= k,
            self.error(j, store) is Some,
        ensures
            self.error(k, store) == self.error(j, store),
        decreases k - j,
    {
        reveal(HuffRow::error);
        if j < k {
            self.lemma_error_stays(j, (k - 1) as nat, store);
        }
    }

    /// What sample `k` is added to.
    pub open spec fn previous(self, k: nat) -> i16 {
        if k < 3 {
            self.offset
        } else {
            self.value((k - 3) as nat)
        }
    }

    /// The running sums of the three colours before sample `k`.
    pub open spec fn accumulators(self, acc: Seq<i16>, k: nat) -> bool {
        &&& acc.len() == 3
        &&& acc[(k % 3) as int] == self.previous(k)
        &&& acc[((k + 1) % 3) as int] == self.previous(k + 1)
        &&& acc[((k + 2) % 3) as int] == self.previous(k + 2)
    }

    /// What an unreadable code, or a sample that cannot be stored, means.
    proof fn lemma_next_error(self, k: nat, total: nat, store: Option<Error>)
        requires
            k < total,
            self.error(k, store) is None,
        ensures
            match self.code(k) {
                Err(e) => self.error(total, store) == Some(e),
                Ok(_) => if store is Some {
                    self.error(total, store) == store
                } else {
                    self.error(k + 1, store) is None
                },
            },
    {
        reveal(HuffRow::error);
        if self.error(k + 1, store) is Some {
            self.lemma_error_stays(k + 1, total, store);
        }
    }

    /// What one more code does to the running sums.
    proof fn lemma_step(self, acc: Seq<i16>, k: nat, store: Option<Error>)
        requires
            self.accumulators(acc, k),
            self.code(k) is Ok,
        ensures
            self.value(k) == acc[(k % 3) as int].wrapping_add(self.code(k)->Ok_0.0 as i16),
            self.accumulators(acc.update((k % 3) as int, self.value(k)), k + 1),
            self.lowest(k + 1) == (if self.value(k) < self.lowest(k) {
                self.value(k) as int
            } else {
                self.lowest(k)
            }),
    {
        reveal(HuffRow::value);
        reveal(HuffRow::lowest);
        let next = acc.update((k % 3) as int, self.value(k));
        assert((k + 3) % 3 == k % 3);
        assert(self.previous(k + 3) == self.value(k));
        assert(k + 1 + 2 == k + 3);
        assert(next[((k + 1 + 2) % 3) as int] == self.previous(k + 1 + 2));
        assert((k + 1) % 3 != k % 3);
        assert((k + 2) % 3 != k % 3);
    }

    proof fn lemma_lowest_bound(self, k: nat)
        ensures
            i16::MIN <= self.lowest(k) <= 0,
        decreases k,
    {
        reveal(HuffRow::lowest);
        if k > 0 {
            self.lemma_lowest_bound((k - 1) as nat);
        }
    }

    /// The errors do not depend on where the accumulators start.
    pub proof fn lemma_error_offset(self, other: HuffRow, k: nat, store: Option<Error>)
        requires
            self.nodes == other.nodes,
            self.bytes == other.bytes,
        ensures
            self.error(k, store) == other.error(k, store),
        decreases k,
    {
        reveal(HuffRow::error);
        if k > 0 {
            self.lemma_error_offset(other, (k - 1) as nat, store);
            self.lemma_start_offset(other, (k - 1) as nat);
        }
    }

    proof fn lemma_start_offset(self, other: HuffRow, k: nat)
        requires
            self.nodes == other.nodes,
            self.bytes == other.bytes,
        ensures
            self.code_start(k) == other.code_start(k),
        decreases k,
    {
        if k > 0 {
            self.lemma_start_offset(other, (k - 1) as nat);
        }
    }
}

/// A Huffman-coded image: where its rows start in its data, and its size.
pub ghost struct HuffImage {
    pub nodes: Seq<HuffNode>,
    pub data: Seq<u8>,
    pub row_offsets: Seq<u32>,
    pub rows: nat,
    pub columns: nat,
}

impl HuffImage {
    pub open spec fn row_start(self, row: nat) -> int {
        self.row_offsets[row as int] as int
    }

    /// A row ends where the next one starts, and the last one with the data.
    pub open spec fn row_end(self, row: nat) -> int {
        if row + 1 < self.rows {
            self.row_offsets[(row + 1) as int] as int
        } else {
            self.data.len() as int
        }
    }

    pub open spec fn row(self, row: nat, offset: int) -> HuffRow {
        HuffRow {
            nodes: self.nodes,
            bytes: self.data.subrange(self.row_start(row), self.row_end(row)),
            offset: offset as i16,
        }
    }

    pub open spec fn row_error(self, row: nat, store: Option<Error>) -> Option<Error> {
        if self.row_start(row) >= self.row_end(row) || self.row_end(row) > self.data.len() {
            Some(Error::InvalidData("Huffman row outside image"))
        } else {
            self.row(row, 0).error((3 * self.columns) as nat, store)
        }
    }

    /// The first error among the first `n` rows.
    pub open spec fn error(self, n: nat, store: Option<Error>) -> Option<Error>
        decreases n,
    {
        if n == 0 {
            None
        } else {
            match self.error((n - 1) as nat, store) {
                Some(e) => Some(e),
                None => self.row_error((n - 1) as nat, store),
            }
        }
    }

    /// The least of zero and the samples of the first `n` rows.
    pub open spec fn lowest(self, n: nat, offset: int) -> int
        decreases n,
    {
        if n == 0 {
            0
        } else {
            let m = self.lowest((n - 1) as nat, offset);
            let v = self.row((n - 1) as nat, offset).lowest((3 * self.columns) as nat);
            if v < m {
                v
            } else {
                m
            }
        }
    }

    /// The stored form of sample `i` of the image.
    pub open spec fn stored(self, i: int, offset: int) -> u32 {
        let width = 3 * self.columns as int;
        self.row((i / width) as nat, offset).stored((i % width) as nat)
    }

    /// A 16-bit buffer once the first `n` samples are stored in it.
    pub open spec fn store16(self, before: Seq<u16>, n: int, offset: int) -> Seq<u16> {
        Seq::new(
            before.len(),
            |i: int|
                if i < n {
                    self.stored(i, offset) as u16
                } else {
                    before[i]
                },
        )
    }

    /// An 8-bit buffer once the first `n` samples are stored in it.
    pub open spec fn store8(self, before: Seq<u8>, n: int, offset: int) -> Seq<u8> {
        Seq::new(
            before.len(),
            |i: int|
                if i < n {
                    self.stored(i, offset) as u8
                } else {
                    before[i]
                },
        )
    }

    pub proof fn lemma_error_stays(self, j: nat, k: nat, store: Option<Error>)
        requires
            j <= k,
            self.error(j, store) is Some,
        ensures
            self.error(k, store) == self.error(j, store),
        decreases k - j,
    {
        if j < k {
            self.lemma_error_stays(j, (k - 1) as nat, store);
        }
    }

    /// The least sample is a 16-bit value.
    proof fn lemma_lowest_bound(self, n: nat, offset: int)
        ensures
            i16::MIN <= self.lowest(n, offset) <= 0,
        decreases n,
    {
        if n > 0 {
            self.lemma_lowest_bound((n - 1) as nat, offset);
            self.row((n - 1) as nat, offset).lemma_lowest_bound((3 * self.columns) as nat);
        }
    }
}

/// Whether the rasters of `huf` are those of `before` with the first `n`
/// samples of the image stored.
pub open spec fn stored_upto(
    huf: Huffman,
    before: Huffman,
    image: HuffImage,
    t: u32,
    n: int,
    offset: int,
) -> bool {
    &&& same_but_store(huf, before)
    &&& huf.x3rgb16.data@ == (if is_huffman16(t) {
        image.store16(before.x3rgb16.data@, n, offset)
    } else {
        before.x3rgb16.data@
    })
    &&& huf.rgb8.data@ == (if is_huffman16(t) {
        before.rgb8.data@
    } else {
        image.store8(before.rgb8.data@, n, offset)
    })
}

/// Decodes one row, and notes its least sample.
fn huffman_decode_row(
    t: u32,
    data: &Vec<u8>,
    rows: u32,
    columns: u32,
    huf: &mut Huffman,
    row: u32,
    base: u64,
    offset: i32,
    minimum: &mut i32,
    control: Control<'_>,
    Ghost(before): Ghost<Huffman>,
) -> (r: Result<(), Error>)
    requires
        row < rows,
        old(huf).row_offsets@.len() == rows,
        stores_hold(*old(huf), 3 * rows * columns),
        base == 3 * row * columns,
        base > 0 ==> store_error(t, before) is None,
        *old(minimum) <= 0,
        ({
            let image = HuffImage {
                nodes: before.tree.nodes@,
                data: data@,
                row_offsets: before.row_offsets@,
                rows: rows as nat,
                columns: columns as nat,
            };
            stored_upto(*old(huf), before, image, t, base as int, offset as int)
        }),
    ensures
        same_but_store(*final(huf), *old(huf)),
        ({
            let image = HuffImage {
                nodes: before.tree.nodes@,
                data: data@,
                row_offsets: before.row_offsets@,
                rows: rows as nat,
                columns: columns as nat,
            };
            let store = store_error(t, before);
            match r {
                Ok(_) => {
                    &&& image.row_error(row as nat, store) is None
                    &&& columns > 0 ==> store is None
                    &&& stored_upto(
                        *final(huf),
                        before,
                        image,
                        t,
                        base + 3 * columns,
                        offset as int,
                    )
                    &&& *final(minimum) == ({
                        let v = image.row(row as nat, offset as int).lowest((3 * columns) as nat);
                        if v < *old(minimum) {
                            v
                        } else {
                            *old(minimum) as int
                        }
                    })
                },
                Err(Error::Cancelled) => control.may_read(true),
                Err(e) => image.row_error(row as nat, store) == Some(e),
            }
        }),
{
    let ghost image = HuffImage {
        nodes: before.tree.nodes@,
        data: data@,
        row_offsets: before.row_offsets@,
        rows: rows as nat,
        columns: columns as nat,
    };
    let ghost store = store_error(t, before);
    let start: usize = huf.row_offsets[row as usize] as usize;
    let end: usize = if row + 1 < rows {
        huf.row_offsets[row as usize + 1] as usize
    } else {
        data.len()
    };
    if start >= end || end > data.len() {
        return Err(Error::InvalidData("Huffman row outside image"));
    }
    let ghost line = image.row(row as nat, offset as int);
    let mut br: BitReader<'_> = BitReader::new(slice_subrange(data.as_slice(), start, end));
    let mut acc: [i16; 3] = [offset as i16; 3];
    let total: u64 = 3 * columns as u64;
    let capacity16: usize = huf.x3rgb16.data.len();
    let capacity8: usize = huf.rgb8.data.len();
    let mut k: u64 = 0;
    proof {
        reveal(HuffRow::error);
        reveal(HuffRow::lowest);
        line.lemma_error_offset(image.row(row as nat, 0), total as nat, store);
        assert(3 * row * columns + 3 * columns <= 3 * rows * columns) by (nonlinear_arith)
            requires
                row + 1 <= rows,
        ;
    }
    while k < total
        invariant
            k <= total,
            total == 3 * columns,
            row < rows,
            base == 3 * row * columns,
            base + total <= 3 * rows * columns,
            image == (HuffImage {
                nodes: before.tree.nodes@,
                data: data@,
                row_offsets: before.row_offsets@,
                rows: rows as nat,
                columns: columns as nat,
            }),
            store == store_error(t, before),
            line == image.row(row as nat, offset as int),
            stores_hold(*huf, 3 * rows * columns),
            capacity16 == before.x3rgb16.data@.len(),
            capacity8 == before.rgb8.data@.len(),
            *old(minimum) <= 0,
            same_but_store(*huf, *old(huf)),
            stored_upto(*huf, before, image, t, base + k, offset as int),
            br.inv(),
            br.source() == line.bytes,
            line.code_start(k as nat) == Some(br.pos()),
            line.error(k as nat, store) is None,
            line.error(total as nat, store) == image.row_error(row as nat, store),
            base + k > 0 ==> store is None,
            line.accumulators(acc@, k as nat),
            *minimum == ({
                let v = line.lowest(k as nat);
                if v < *old(minimum) {
                    v
                } else {
                    *old(minimum) as int
                }
            }),
        decreases total - k,
    {
        if k % 3 == 0 && (k / 3) % 4096 == 0 {
            control.check()?;
        }
        proof {
            line.lemma_next_error(k as nat, total as nat, store);
        }
        let leaf: u32 = read_leaf(&mut br, &huf.tree)?;
        let color: usize = (k % 3) as usize;
        let value: i16 = acc[color].wrapping_add(leaf as i16);
        proof {
            line.lemma_step(acc@, k as nat, store);
        }
        acc[color] = value;
        if (value as i32) < *minimum {
            *minimum = value as i32;
        }
        let stored: u32 = if value > 0 {
            value as u32
        } else {
            0
        };
        let ghost huf_before = *huf;
        write_huffman_pixel(t, huf, (base + k) as usize, stored)?;
        proof {
            let i = base + k;
            assert(row * total == 3 * row * columns) by (nonlinear_arith)
                requires
                    total == 3 * columns,
            ;
            vstd::arithmetic::div_mod::lemma_fundamental_div_mod_converse(
                i,
                total as int,
                row as int,
                k as int,
            );
            assert(image.stored(i, offset as int) == stored);
            if is_huffman16(t) {
                assert(huf.x3rgb16.data@ =~= image.store16(
                    before.x3rgb16.data@,
                    i + 1,
                    offset as int,
                ));
            } else {
                assert(huf.rgb8.data@ =~= image.store8(before.rgb8.data@, i + 1, offset as int));
            }
        }
        k = k + 1;
    }
    Ok(())
}

/// The rows of `huf` as they are coded in `data`.
pub open spec fn huff_image(huf: Huffman, data: Seq<u8>, rows: u32, columns: u32) -> HuffImage {
    HuffImage {
        nodes: huf.tree.nodes@,
        data,
        row_offsets: huf.row_offsets@,
        rows: rows as nat,
        columns: columns as nat,
    }
}

/// Decodes every row from the same starting value, and returns the least of
/// zero and all samples.
fn huffman_pass(
    t: u32,
    data: &Vec<u8>,
    rows: u32,
    columns: u32,
    huf: &mut Huffman,
    offset: i32,
    control: Control<'_>,
) -> (r: Result<i32, Error>)
    requires
        old(huf).row_offsets@.len() == rows,
        stores_hold(*old(huf), 3 * rows * columns),
    ensures
        same_but_store(*final(huf), *old(huf)),
        ({
            let image = huff_image(*old(huf), data@, rows, columns);
            let store = store_error(t, *old(huf));
            match r {
                Ok(minimum) => {
                    &&& image.error(rows as nat, store) is None
                    &&& stored_upto(
                        *final(huf),
                        *old(huf),
                        image,
                        t,
                        3 * rows * columns,
                        offset as int,
                    )
                    &&& minimum == image.lowest(rows as nat, offset as int)
                },
                Err(Error::Cancelled) => control.may_read(true),
                Err(e) => image.error(rows as nat, store) == Some(e),
            }
        }),
{
    let ghost before = *huf;
    let ghost image = huff_image(before, data@, rows, columns);
    let ghost store = store_error(t, before);
    let mut minimum: i32 = 0;
    let mut row: u32 = 0;
    let mut base: u64 = 0;
    let capacity16: usize = huf.x3rgb16.data.len();
    let capacity8: usize = huf.rgb8.data.len();
    assert(before.x3rgb16.data@ =~= image.store16(before.x3rgb16.data@, 0, offset as int));
    assert(before.rgb8.data@ =~= image.store8(before.rgb8.data@, 0, offset as int));
    while row < rows
        invariant
            row <= rows,
            before == *old(huf),
            image == huff_image(before, data@, rows, columns),
            store == store_error(t, before),
            before.row_offsets@.len() == rows,
            stores_hold(before, 3 * rows * columns),
            capacity16 == before.x3rgb16.data@.len(),
            capacity8 == before.rgb8.data@.len(),
            base == 3 * row * columns,
            base > 0 ==> store is None,
            stored_upto(*huf, before, image, t, base as int, offset as int),
            image.error(row as nat, store) is None,
            minimum == image.lowest(row as nat, offset as int),
            minimum <= 0,
        decreases rows - row,
    {
        control.check()?;
        proof {
            if image.error((row + 1) as nat, store) is Some {
                image.lemma_error_stays((row + 1) as nat, rows as nat, store);
            }
        }
        huffman_decode_row(
            t,
            data,
            rows,
            columns,
            huf,
            row,
            base,
            offset,
            &mut minimum,
            control,
            Ghost(before),
        )?;
        proof {
            assert(3 * (row + 1) * columns == 3 * row * columns + 3 * columns)
                by (nonlinear_arith);
            assert(3 * (row + 1) * columns <= 3 * rows * columns) by (nonlinear_arith)
                requires
                    row + 1 <= rows,
            ;
        }
        base = base + 3 * columns as u64;
        row = row + 1;
    }
    Ok(minimum)
}

impl ImageData {
    /// What keeps a Huffman-coded image from being decoded at all.
    pub open spec fn huffman_setup_error(self) -> Option<Error> {
        if self.huffman is None || self.data@.len() == 0 {
            Some(Error::InvalidData("missing Huffman data"))
        } else if self.huffman->0.row_offsets@.len() != self.rows || self.rows == 0 {
            Some(Error::InvalidData("missing Huffman row offsets"))
        } else {
            None
        }
    }

    /// The first error in setting up or decoding a Huffman-coded image.
    pub open spec fn huffman_error(self) -> Option<Error> {
        match self.huffman_setup_error() {
            Some(e) => Some(e),
            None => huff_image(self.huffman->0, self.data@, self.rows, self.columns).error(
                self.rows as nat,
                store_error(self.type_format, self.huffman->0),
            ),
        }
    }

    /// The value that the rows of the decoded image start from: the given one
    /// or, where that leaves a negative sample and correction is on, the one
    /// that lifts the least sample to zero.
    pub open spec fn huffman_offset(self, legacy: LegacyOffset) -> int {
        let image = huff_image(self.huffman->0, self.data@, self.rows, self.columns);
        let lowest = image.lowest(self.rows as nat, legacy.legacy_offset as int);
        if legacy.auto_legacy_offset && lowest < 0 {
            -lowest
        } else {
            legacy.legacy_offset as int
        }
    }

    /// The buffers of the older cameras' rasters hold every sample.
    pub open spec fn huffman_holds(self) -> bool {
        self.huffman is Some ==> stores_hold(self.huffman->0, 3 * self.rows * self.columns)
    }

    /// The same section, but for what its Huffman rasters hold.
    pub open spec fn same_but_huffman(self, other: Self) -> bool {
        &&& self.type_ == other.type_
        &&& self.format == other.format
        &&& self.type_format == other.type_format
        &&& self.columns == other.columns
        &&& self.rows == other.rows
        &&& self.row_stride == other.row_stride
        &&& self.tru == other.tru
        &&& self.quattro == other.quattro
        &&& self.data == other.data
        &&& self.huffman is Some <==> other.huffman is Some
        &&& self.huffman is Some ==> same_but_store(self.huffman->0, other.huffman->0)
    }
}

/// Decodes a Huffman-coded image of the older cameras.
pub fn huffman_decode(
    id: &mut ImageData,
    _bits: i32,
    legacy: LegacyOffset,
    control: Control<'_>,
) -> (r: Result<(), Error>)
    requires
        old(id).huffman_holds(),
    ensures
        final(id).same_but_huffman(*old(id)),
        control.allows(r),
        match r {
            Ok(_) => {
                &&& old(id).huffman_error() is None
                &&& stored_upto(
                    final(id).huffman->0,
                    old(id).huffman->0,
                    huff_image(old(id).huffman->0, old(id).data@, old(id).rows, old(id).columns),
                    old(id).type_format,
                    3 * old(id).rows * old(id).columns,
                    old(id).huffman_offset(legacy),
                )
            },
            Err(Error::Cancelled) => control.may_read(true),
            Err(e) => old(id).huffman_error() == Some(e),
        },
{
    control.check()?;
    if id.huffman.is_none() || id.data.len() == 0 {
        return Err(Error::InvalidData("missing Huffman data"));
    }
    let (t, rows, columns): (u32, u32, u32) = (id.type_format, id.rows, id.columns);
    match &mut id.huffman {
        None => Err(Error::InvalidData("missing Huffman data")),
        Some(huf) => {
            if huf.row_offsets.len() != rows as usize || huf.row_offsets.len() == 0 {
                return Err(Error::InvalidData("missing Huffman row offsets"));
            }
            let ghost before = *huf;
            let ghost image = huff_image(before, id.data@, rows, columns);
            let ghost n = 3 * rows * columns;
            let minimum: i32 = huffman_pass(
                t,
                &id.data,
                rows,
                columns,
                huf,
                legacy.legacy_offset,
                control,
            )?;
            if legacy.auto_legacy_offset && minimum < 0 {
                proof {
                    image.lemma_lowest_bound(rows as nat, legacy.legacy_offset as int);
                }
                let ghost middle = *huf;
                huffman_pass(t, &id.data, rows, columns, huf, -minimum, control)?;
                proof {
                    let offset = -(minimum as int);
                    assert(image.store16(middle.x3rgb16.data@, n, offset) =~= image.store16(
                        before.x3rgb16.data@,
                        n,
                        offset,
                    ));
                    assert(image.store8(middle.rgb8.data@, n, offset) =~= image.store8(
                        before.rgb8.data@,
                        n,
                        offset,
                    ));
                }
            }
            Ok(())
        },
    }
}

/// A packed image: each pixel is a little-endian 32-bit word that holds three
/// differences, or three indices into a table of differences.
pub ghost struct PackedImage {
    pub data: Seq<u8>,
    pub mapping: Seq<u16>,
    /// Two to the power of the bits per difference.
    pub modulus: int,
    pub stride: int,
    pub columns: int,
    /// Whether the samples have eight bits.
    pub thumb: bool,
}

/// Two to the power of the bits per difference, of which there are 8 to 10.
pub open spec fn packed_modulus(bits: int) -> int {
    if bits == 8 {
        256
    } else if bits == 9 {
        512
    } else {
        1024
    }
}

impl PackedImage {
    /// What is packed for sample `k` of a row, three to a pixel.
    pub open spec fn field(self, row: int, k: int) -> int {
        let word = le32(self.data, row * self.stride + 4 * (k / 3)) as int;
        if k % 3 == 0 {
            word % self.modulus
        } else if k % 3 == 1 {
            (word / self.modulus) % self.modulus
        } else {
            (word / self.modulus / self.modulus) % self.modulus
        }
    }

    /// Whether the table of differences, if there is one, has an entry for it.
    pub open spec fn mapped(self, row: int, k: int) -> bool {
        self.mapping.len() == 0 || self.field(row, k) < self.mapping.len()
    }

    pub open spec fn difference(self, row: int, k: int) -> int {
        if self.mapping.len() == 0 {
            self.field(row, k)
        } else {
            self.mapping[self.field(row, k)] as int
        }
    }

    /// Sample `k` of a row: the running sum of the differences of its colour,
    /// in 16 bits.
    #[verifier::opaque]
    pub open spec fn value(self, row: int, k: nat) -> int
        decreases k,
    {
        let previous = if k < 3 {
            0
        } else {
            self.value(row, (k - 3) as nat)
        };
        (previous + self.difference(row, k as int)) % 0x1_0000
    }

    /// The stored form of sample `k`: what is not positive is stored as zero.
    pub open spec fn stored(self, row: int, k: nat) -> int {
        let v = self.value(row, k);
        let positive = if self.thumb {
            0 < v % 0x100 < 0x80
        } else {
            0 < v < 0x8000
        };
        if positive {
            v
        } else {
            0
        }
    }

    /// What goes wrong with sample `i` of the image.
    pub open spec fn sample_error(self, i: int, store: Option<Error>) -> Option<Error> {
        if !self.mapped(i / (3 * self.columns), i % (3 * self.columns)) {
            Some(Error::InvalidData("simple mapping index outside table"))
        } else {
            store
        }
    }

    /// The first error among the first `n` samples of the image.
    #[verifier::opaque]
    pub open spec fn error(self, n: nat, store: Option<Error>) -> Option<Error>
        decreases n,
    {
        if n == 0 {
            None
        } else {
            match self.error((n - 1) as nat, store) {
                Some(e) => Some(e),
                None => self.sample_error(n - 1, store),
            }
        }
    }

    /// A 16-bit buffer once the first `n` samples are stored in it.
    pub open spec fn store16(self, before: Seq<u16>, n: int) -> Seq<u16> {
        Seq::new(
            before.len(),
            |i: int|
                if i < n {
                    self.stored(i / (3 * self.columns), (i % (3 * self.columns)) as nat) as u16
                } else {
                    before[i]
                },
        )
    }

    /// An 8-bit buffer once the first `n` samples are stored in it.
    pub open spec fn store8(self, before: Seq<u8>, n: int) -> Seq<u8> {
        Seq::new(
            before.len(),
            |i: int|
                if i < n {
                    self.stored(i / (3 * self.columns), (i % (3 * self.columns)) as nat) as u8
                } else {
                    before[i]
                },
        )
    }

    proof fn lemma_error_stays(self, j: nat, k: nat, store: Option<Error>)
        requires
            j <= k,
            self.error(j, store) is Some,
        ensures
            self.error(k, store) == self.error(j, store),
        decreases k - j,
    {
        reveal(PackedImage::error);
        if j < k {
            self.lemma_error_stays(j, (k - 1) as nat, store);
        }
    }

    proof fn lemma_next_error(self, i: nat, total: nat, store: Option<Error>)
        requires
            i < total,
            self.error(i, store) is None,
        ensures
            match self.sample_error(i as int, store) {
                Some(e) => self.error(total, store) == Some(e),
                None => self.error(i + 1, store) is None,
            },
    {
        reveal(PackedImage::error);
        if self.error(i + 1, store) is Some {
            self.lemma_error_stays(i + 1, total, store);
        }
    }

    /// What sample `k` is added to.
    pub open spec fn previous(self, row: int, k: nat) -> int {
        if k < 3 {
            0
        } else {
            self.value(row, (k - 3) as nat)
        }
    }

    /// The running sums of the three colours before sample `k`.
    pub open spec fn accumulators(self, acc: Seq<u16>, row: int, k: nat) -> bool {
        &&& acc.len() == 3
        &&& acc[(k % 3) as int] == self.previous(row, k)
        &&& acc[((k + 1) % 3) as int] == self.previous(row, k + 1)
        &&& acc[((k + 2) % 3) as int] == self.previous(row, k + 2)
    }

    proof fn lemma_step(self, acc: Seq<u16>, row: int, k: nat, value: u16)
        requires
            self.accumulators(acc, row, k),
            value == (acc[(k % 3) as int] + self.difference(row, k as int)) % 0x1_0000,
        ensures
            value == self.value(row, k),
            self.accumulators(acc.update((k % 3) as int, value), row, k + 1),
    {
        reveal(PackedImage::value);
        let next = acc.update((k % 3) as int, value);
        assert((k + 3) % 3 == k % 3);
        assert(self.previous(row, k + 3) == self.value(row, k));
        assert(k + 1 + 2 == k + 3);
        assert(next[((k + 1 + 2) % 3) as int] == self.previous(row, k + 1 + 2));
        assert((k + 1) % 3 != k % 3);
        assert((k + 2) % 3 != k % 3);
    }
}

impl ImageData {
    /// The image as it is packed.
    pub open spec fn packed(self, bits: i32, row_stride: i32) -> PackedImage {
        PackedImage {
            data: self.data@,
            mapping: self.huffman->0.mapping@,
            modulus: packed_modulus(bits as int),
            stride: row_stride as int,
            columns: self.columns as int,
            thumb: self.type_format == X3F_IMAGE_THUMB_HUFFMAN,
        }
    }

    /// The first error in setting up or decoding a packed image.
    pub open spec fn simple_error(self, bits: i32, row_stride: i32) -> Option<Error> {
        if row_stride <= 0 || !(8 <= bits <= 10) {
            Some(Error::InvalidData("invalid simple decoder dimensions"))
        } else if self.huffman is None || self.data@.len() == 0 {
            Some(Error::InvalidData("missing simple image data"))
        } else if self.columns * 4 > row_stride || row_stride * self.rows > self.data@.len() {
            Some(Error::InvalidData("simple image raster exceeds input"))
        } else {
            self.packed(bits, row_stride).error(
                (3 * self.rows * self.columns) as nat,
                store_error(self.type_format, self.huffman->0),
            )
        }
    }
}

/// Whether the rasters of `huf` are those of `before` with the first `n`
/// samples of the packed image stored.
pub open spec fn packed_upto(
    huf: Huffman,
    before: Huffman,
    image: PackedImage,
    t: u32,
    n: int,
) -> bool {
    &&& same_but_store(huf, before)
    &&& huf.x3rgb16.data@ == (if is_huffman16(t) {
        image.store16(before.x3rgb16.data@, n)
    } else {
        before.x3rgb16.data@
    })
    &&& huf.rgb8.data@ == (if is_huffman16(t) {
        before.rgb8.data@
    } else {
        image.store8(before.rgb8.data@, n)
    })
}

/// What is packed for one colour in the word at `p`.
fn packed_field(data: &Vec<u8>, p: usize, modulus: u32, color: usize) -> (r: usize)
    requires
        p + 4 <= data.len(),
        color < 3,
        modulus == 256 || modulus == 512 || modulus == 1024,
    ensures
        r == ({
            let word = le32(data@, p as int) as int;
            if color == 0 {
                word % modulus as int
            } else if color == 1 {
                (word / modulus as int) % modulus as int
            } else {
                (word / modulus as int / modulus as int) % modulus as int
            }
        }),
        r < modulus,
{
    let word: u32 = data[p] as u32 + data[p + 1] as u32 * 0x100 + data[p + 2] as u32 * 0x1_0000
        + data[p + 3] as u32 * 0x100_0000;
    if color == 0 {
        (word % modulus) as usize
    } else if color == 1 {
        (word / modulus % modulus) as usize
    } else {
        (word / modulus / modulus % modulus) as usize
    }
}

/// Decodes one row of a packed image.
fn simple_decode_row(
    t: u32,
    data: &Vec<u8>,
    modulus: u32,
    stride: usize,
    rows: u32,
    columns: u32,
    huf: &mut Huffman,
    row: u32,
    base: u64,
    control: Control<'_>,
    Ghost(before): Ghost<Huffman>,
    Ghost(image): Ghost<PackedImage>,
) -> (r: Result<(), Error>)
    requires
        row < rows,
        columns * 4 <= stride,
        stride * rows <= data@.len(),
        modulus == 256 || modulus == 512 || modulus == 1024,
        image == (PackedImage {
            data: data@,
            mapping: before.mapping@,
            modulus: modulus as int,
            stride: stride as int,
            columns: columns as int,
            thumb: t == X3F_IMAGE_THUMB_HUFFMAN,
        }),
        stores_hold(*old(huf), 3 * rows * columns),
        base == 3 * row * columns,
        base > 0 ==> store_error(t, before) is None,
        packed_upto(*old(huf), before, image, t, base as int),
        image.error(base as nat, store_error(t, before)) is None,
    ensures
        same_but_store(*final(huf), *old(huf)),
        ({
            let store = store_error(t, before);
            match r {
                Ok(_) => {
                    &&& image.error((base + 3 * columns) as nat, store) is None
                    &&& columns > 0 ==> store is None
                    &&& packed_upto(*final(huf), before, image, t, base + 3 * columns)
                },
                Err(Error::Cancelled) => control.may_read(true),
                Err(e) => image.error((3 * rows * columns) as nat, store) == Some(e),
            }
        }),
{
    let ghost store = store_error(t, before);
    let mut acc: [u16; 3] = [0u16; 3];
    let total: u64 = 3 * columns as u64;
    let capacity16: usize = huf.x3rgb16.data.len();
    let capacity8: usize = huf.rgb8.data.len();
    let length: usize = data.len();
    let mut k: u64 = 0;
    proof {
        assert(3 * row * columns + 3 * columns <= 3 * rows * columns) by (nonlinear_arith)
            requires
                row + 1 <= rows,
        ;
        assert(row * stride + stride <= stride * rows) by (nonlinear_arith)
            requires
                row + 1 <= rows,
        ;
        assert(0 <= row * stride) by (nonlinear_arith);
        assert(0 <= 3 * row * columns) by (nonlinear_arith);
    }
    let line: usize = row as usize * stride;
    while k < total
        invariant
            k <= total,
            total == 3 * columns,
            row < rows,
            columns * 4 <= stride,
            line == row * stride,
            line + stride <= data@.len(),
            length == data@.len(),
            modulus == 256 || modulus == 512 || modulus == 1024,
            image == (PackedImage {
                data: data@,
                mapping: before.mapping@,
                modulus: modulus as int,
                stride: stride as int,
                columns: columns as int,
                thumb: t == X3F_IMAGE_THUMB_HUFFMAN,
            }),
            store == store_error(t, before),
            base == 3 * row * columns,
            base + total <= 3 * rows * columns,
            base + k > 0 ==> store is None,
            stores_hold(*huf, 3 * rows * columns),
            capacity16 == before.x3rgb16.data@.len(),
            capacity8 == before.rgb8.data@.len(),
            same_but_store(*huf, *old(huf)),
            packed_upto(*huf, before, image, t, base + k),
            image.error((base + k) as nat, store) is None,
            image.accumulators(acc@, row as int, k as nat),
        decreases total - k,
    {
        let ghost i = base + k;
        proof {
            assert(row * total == 3 * row * columns) by (nonlinear_arith)
                requires
                    total == 3 * columns,
            ;
            vstd::arithmetic::div_mod::lemma_fundamental_div_mod_converse(
                i,
                total as int,
                row as int,
                k as int,
            );
            image.lemma_next_error(i as nat, (3 * rows * columns) as nat, store);
        }
        if k % 3 == 0 && (k / 3) % 4096 == 0 {
            control.check()?;
        }
        let color: usize = (k % 3) as usize;
        let index: usize = packed_field(data, line + 4 * (k / 3) as usize, modulus, color);
        assert(index == image.field(row as int, k as int));
        let difference: u16 = if huf.mapping.len() == 0 {
            index as u16
        } else {
            if index >= huf.mapping.len() {
                return Err(Error::InvalidData("simple mapping index outside table"));
            }
            huf.mapping[index]
        };
        let value: u16 = acc[color].wrapping_add(difference);
        proof {
            image.lemma_step(acc@, row as int, k as nat, value);
        }
        acc[color] = value;
        let positive: bool = if t == X3F_IMAGE_THUMB_HUFFMAN {
            0 < value % 0x100 && value % 0x100 < 0x80
        } else {
            0 < value && value < 0x8000
        };
        let stored: u32 = if positive {
            value as u32
        } else {
            0
        };
        write_huffman_pixel(t, huf, (base + k) as usize, stored)?;
        proof {
            assert(image.stored(row as int, k as nat) == stored);
            if is_huffman16(t) {
                assert(huf.x3rgb16.data@ =~= image.store16(before.x3rgb16.data@, i + 1));
            } else {
                assert(huf.rgb8.data@ =~= image.store8(before.rgb8.data@, i + 1));
            }
        }
        k = k + 1;
    }
    Ok(())
}

/// Decodes every row of a packed image.
fn simple_pass(
    t: u32,
    data: &Vec<u8>,
    modulus: u32,
    stride: usize,
    rows: u32,
    columns: u32,
    huf: &mut Huffman,
    control: Control<'_>,
) -> (r: Result<(), Error>)
    requires
        columns * 4 <= stride,
        stride * rows <= data@.len(),
        modulus == 256 || modulus == 512 || modulus == 1024,
        stores_hold(*old(huf), 3 * rows * columns),
    ensures
        same_but_store(*final(huf), *old(huf)),
        ({
            let image = PackedImage {
                data: data@,
                mapping: old(huf).mapping@,
                modulus: modulus as int,
                stride: stride as int,
                columns: columns as int,
                thumb: t == X3F_IMAGE_THUMB_HUFFMAN,
            };
            let error = image.error((3 * rows * columns) as nat, store_error(t, *old(huf)));
            match r {
                Ok(_) => {
                    &&& error is None
                    &&& packed_upto(*final(huf), *old(huf), image, t, 3 * rows * columns)
                },
                Err(Error::Cancelled) => control.may_read(true),
                Err(e) => error == Some(e),
            }
        }),
{
    let ghost before = *huf;
    let ghost image = PackedImage {
        data: data@,
        mapping: before.mapping@,
        modulus: modulus as int,
        stride: stride as int,
        columns: columns as int,
        thumb: t == X3F_IMAGE_THUMB_HUFFMAN,
    };
    let ghost store = store_error(t, before);
    let capacity16: usize = huf.x3rgb16.data.len();
    let capacity8: usize = huf.rgb8.data.len();
    let mut row: u32 = 0;
    let mut base: u64 = 0;
    proof {
        reveal(PackedImage::error);
        assert(before.x3rgb16.data@ =~= image.store16(before.x3rgb16.data@, 0));
        assert(before.rgb8.data@ =~= image.store8(before.rgb8.data@, 0));
    }
    while row < rows
        invariant
            row <= rows,
            columns * 4 <= stride,
            stride * rows <= data@.len(),
            modulus == 256 || modulus == 512 || modulus == 1024,
            before == *old(huf),
            image == (PackedImage {
                data: data@,
                mapping: before.mapping@,
                modulus: modulus as int,
                stride: stride as int,
                columns: columns as int,
                thumb: t == X3F_IMAGE_THUMB_HUFFMAN,
            }),
            store == store_error(t, before),
            stores_hold(before, 3 * rows * columns),
            capacity16 == before.x3rgb16.data@.len(),
            capacity8 == before.rgb8.data@.len(),
            base == 3 * row * columns,
            base > 0 ==> store is None,
            packed_upto(*huf, before, image, t, base as int),
            image.error(base as nat, store) is None,
        decreases rows - row,
    {
        control.check()?;
        simple_decode_row(
            t,
            data,
            modulus,
            stride,
            rows,
            columns,
            huf,
            row,
            base,
            control,
            Ghost(before),
            Ghost(image),
        )?;
        proof {
            assert(3 * (row + 1) * columns == 3 * row * columns + 3 * columns)
                by (nonlinear_arith);
            assert(3 * (row + 1) * columns <= 3 * rows * columns) by (nonlinear_arith)
                requires
                    row + 1 <= rows,
            ;
        }
        base = base + 3 * columns as u64;
        row = row + 1;
    }
    Ok(())
}

/// Decodes a packed image of the older cameras.
pub fn simple_decode(
    id: &mut ImageData,
    bits: i32,
    row_stride: i32,
    control: Control<'_>,
) -> (r: Result<(), Error>)
    requires
        old(id).huffman_holds(),
    ensures
        final(id).same_but_huffman(*old(id)),
        control.allows(r),
        match r {
            Ok(_) => {
                &&& old(id).simple_error(bits, row_stride) is None
                &&& packed_upto(
                    final(id).huffman->0,
                    old(id).huffman->0,
                    old(id).packed(bits, row_stride),
                    old(id).type_format,
                    3 * old(id).rows * old(id).columns,
                )
            },
            Err(Error::Cancelled) => control.may_read(true),
            Err(e) => old(id).simple_error(bits, row_stride) == Some(e),
        },
{
    control.check()?;
    if row_stride <= 0 || bits < 8 || bits > 10 {
        return Err(Error::InvalidData("invalid simple decoder dimensions"));
    }
    if id.huffman.is_none() || id.data.len() == 0 {
        return Err(Error::InvalidData("missing simple image data"));
    }
    let stride: usize = row_stride as usize;
    let (t, rows, columns): (u32, u32, u32) = (id.type_format, id.rows, id.columns);
    assert(stride * rows <= 0x7fff_ffff * 0xffff_ffff) by (nonlinear_arith)
        requires
            0 <= stride <= 0x7fff_ffff,
            0 <= rows <= 0xffff_ffff,
    ;
    if columns as u64 * 4 > stride as u64 || stride as u64 * rows as u64 > id.data.len() as u64 {
        return Err(Error::InvalidData("simple image raster exceeds input"));
    }
    let modulus: u32 = if bits == 8 {
        256
    } else if bits == 9 {
        512
    } else {
        1024
    };
    match &mut id.huffman {
        None => Err(Error::InvalidData("missing simple image data")),
        Some(huf) => simple_pass(t, &id.data, modulus, stride, rows, columns, huf, control),
    }
}

/// Casts to 16 bits keep the value up to multiples of 65536.
proof fn lemma_low_word(leaf: u32, offset: i32)
    ensures
        ((leaf as i16) - leaf) % 0x1_0000 == 0,
        ((offset as i16) - offset) % 0x1_0000 == 0,
{
    let u = offset as u32;
    assert(leaf % 0x1_0000 < 0x8000 ==> (leaf as i16) == leaf % 0x1_0000) by (bit_vector);
    assert(leaf % 0x1_0000 >= 0x8000 ==> (leaf as i16) == leaf % 0x1_0000 - 0x1_0000)
        by (bit_vector);
    assert((offset as i16) == u as i16) by (bit_vector)
        requires
            u == offset as u32,
    ;
    assert(u % 0x1_0000 < 0x8000 ==> (u as i16) == u % 0x1_0000) by (bit_vector);
    assert(u % 0x1_0000 >= 0x8000 ==> (u as i16) == u % 0x1_0000 - 0x1_0000) by (bit_vector);
    assert(offset >= 0 ==> u == offset) by (bit_vector)
        requires
            u == offset as u32,
    ;
    assert(offset < 0 ==> u == offset + 0x1_0000_0000) by (bit_vector)
        requires
            u == offset as u32,
    ;
}

/// Whether a stream holds, up to a pixel of a row, a code for each sample, which stands
/// for the difference, in 16 bits, to the sample of the same colour in the pixel before,
/// or to the starting value.
pub open spec fn codes_row(
    nodes: Seq<HuffNode>,
    bytes: Seq<u8>,
    offset: int,
    samples: spec_fn(int, int) -> int,
    leaves: spec_fn(int, int) -> u32,
    starts: spec_fn(int) -> int,
    column: int,
) -> bool {
    forall|c: int, color: int|
        0 <= c <= column && 0 <= color < 3 ==> {
            &&& spec_read_leaf(nodes, bytes, starts(3 * c + color)) == Ok::<(u32, int), Error>(
                (leaves(c, color), starts(3 * c + color + 1)),
            )
            &&& i16::MIN <= samples(c, color) <= i16::MAX
            &&& (samples(c, color) - (if c == 0 {
                offset
            } else {
                samples(c - 1, color)
            }) - #[trigger] leaves(c, color)) % 0x1_0000 == 0
        }
}

impl HuffRow {
    /// Where the first codes of a row stand, and what their samples are.
    proof fn lemma_read_back(
        self,
        offset: i32,
        samples: spec_fn(int, int) -> int,
        leaves: spec_fn(int, int) -> u32,
        starts: spec_fn(int) -> int,
        column: int,
        k: nat,
    )
        requires
            self.offset == offset as int as i16,
            starts(0) == 0,
            k < 3 * column + 3,
            codes_row(self.nodes, self.bytes, offset as int, samples, leaves, starts, column),
        ensures
            self.code_start(k) == Some(starts(k as int)),
            self.value(k) == samples(k as int / 3, k as int % 3),
        decreases k,
    {
        reveal(HuffRow::value);
        let (c, color) = (k as int / 3, k as int % 3);
        if k > 0 {
            self.lemma_read_back(offset, samples, leaves, starts, column, (k - 1) as nat);
            let (b, other) = ((k - 1) / 3, (k - 1) % 3);
            assert(leaves(b, other) >= 0);
            assert(3 * b + other == k - 1);
        }
        assert(self.code_start(k) == Some(starts(k as int)));
        if k >= 3 {
            self.lemma_read_back(offset, samples, leaves, starts, column, (k - 3) as nat);
            assert((k - 3) / 3 == c - 1 && (k - 3) % 3 == color);
        }
        assert(leaves(c, color) >= 0);
        assert(3 * c + color == k);
        assert(self.code(k) == Ok::<(u32, int), Error>((leaves(c, color), starts(k as int + 1))));
        lemma_low_word(leaves(c, color), offset);
    }
}

/// What is stored of a coded row.
pub proof fn lemma_coded_row(
    after: Huffman,
    before: Huffman,
    data: Seq<u8>,
    rows: u32,
    columns: u32,
    t: u32,
    offset: i32,
    row: int,
    samples: spec_fn(int, int) -> int,
    leaves: spec_fn(int, int) -> u32,
    starts: spec_fn(int) -> int,
    column: int,
    color: int,
)
    requires
        stored_upto(
            after,
            before,
            huff_image(before, data, rows, columns),
            t,
            3 * rows * columns,
            offset as int,
        ),
        0 <= row < rows,
        0 <= column < columns,
        0 <= color < 3,
        starts(0) == 0,
        ({
            let end = if row + 1 < rows {
                before.row_offsets@[row + 1] as int
            } else {
                data.len() as int
            };
            let bytes = data.subrange(before.row_offsets@[row] as int, end);
            codes_row(before.tree.nodes@, bytes, offset as int, samples, leaves, starts, column)
        }),
    ensures
        ({
            let i = 3 * (row * columns + column) + color;
            let v = if samples(column, color) < 0 {
                0
            } else {
                samples(column, color)
            };
            &&& (t == X3F_IMAGE_RAW_HUFFMAN_X530 || t == X3F_IMAGE_RAW_HUFFMAN_10BIT) && i
                < before.x3rgb16.data@.len() ==> after.x3rgb16.data@[i] == v
            &&& t == X3F_IMAGE_THUMB_HUFFMAN && i < before.rgb8.data@.len()
                ==> after.rgb8.data@[i] == v % 0x100
        }),
{
    let image = huff_image(before, data, rows, columns);
    let i = 3 * (row * columns + column) + color;
    let width = 3 * columns as int;
    let k = 3 * column + color;
    let end = if row + 1 < rows {
        before.row_offsets@[row + 1] as int
    } else {
        data.len() as int
    };
    let line = image.row(row as nat, offset as int);
    assert(line.bytes == data.subrange(before.row_offsets@[row] as int, end));
    line.lemma_read_back(
        offset,
        samples,
        leaves,
        starts,
        column,
        k as nat,
    );
    assert(k / 3 == column && k % 3 == color);
    assert(i == row * width + k) by (nonlinear_arith)
        requires
            i == 3 * (row * columns + column) + color,
            k == 3 * column + color,
            width == 3 * columns,
    ;
    vstd::arithmetic::div_mod::lemma_fundamental_div_mod_converse(i, width, row, k);
    assert(0 <= i < 3 * rows * columns) by (nonlinear_arith)
        requires
            i == 3 * (row * columns + column) + color,
            0 <= row < rows,
            0 <= column < columns,
            0 <= color < 3,
    ;
    let v = line.stored(k as nat);
    assert(v as u8 == v % 0x100) by (bit_vector);
}

/// Decoding a Huffman-coded image inverts encoding it. Row by row, from the byte
/// that the row's offset gives to where the next row starts (or the data ends), a
/// code for each sample holds its difference to the sample of the same colour in
/// the pixel before, or to the starting value in the row's first pixel. Where that
/// is so up to a pixel, the samples of the pixel are stored in its place, the
/// negative ones as zero.
pub proof fn law_huffman_rows_are_read_back(
    after: Huffman,
    before: Huffman,
    data: Seq<u8>,
    rows: u32,
    columns: u32,
    t: u32,
    offset: i32,
    row: int,
    samples: spec_fn(int, int) -> int,
    leaves: spec_fn(int, int) -> u32,
    starts: spec_fn(int) -> int,
    column: int,
    color: int,
)
    requires
        stored_upto(
            after,
            before,
            huff_image(before, data, rows, columns),
            t,
            3 * rows * columns,
            offset as int,
        ),
        0 <= row < rows,
        0 <= column < columns,
        0 <= color < 3,
        starts(0) == 0,
        ({
            let end = if row + 1 < rows {
                before.row_offsets@[row + 1] as int
            } else {
                data.len() as int
            };
            let bytes = data.subrange(before.row_offsets@[row] as int, end);
            forall|c: int, color: int|
                0 <= c <= column && 0 <= color < 3 ==> {
                    &&& spec_read_leaf(before.tree.nodes@, bytes, starts(3 * c + color)) == Ok::<
                        (u32, int),
                        Error,
                    >((leaves(c, color), starts(3 * c + color + 1)))
                    &&& i16::MIN <= samples(c, color) <= i16::MAX
                    &&& (samples(c, color) - (if c == 0 {
                        offset as int
                    } else {
                        samples(c - 1, color)
                    }) - #[trigger] leaves(c, color)) % 0x1_0000 == 0
                }
        }),
    ensures
        ({
            let i = 3 * (row * columns + column) + color;
            let v = if samples(column, color) < 0 {
                0
            } else {
                samples(column, color)
            };
            &&& (t == X3F_IMAGE_RAW_HUFFMAN_X530 || t == X3F_IMAGE_RAW_HUFFMAN_10BIT) && i
                < before.x3rgb16.data@.len() ==> after.x3rgb16.data@[i] == v
            &&& t == X3F_IMAGE_THUMB_HUFFMAN && i < before.rgb8.data@.len()
                ==> after.rgb8.data@[i] == v % 0x100
        }),
{
    lemma_coded_row(
        after,
        before,
        data,
        rows,
        columns,
        t,
        offset,
        row,
        samples,
        leaves,
        starts,
        column,
        color,
    );
}

/// What is stored of a row depends on nothing but the code tree, the starting
/// value and the bytes from the row's offset up to the next one: rows that have
/// these in common, of one image or of two, are stored alike.
pub proof fn law_huffman_rows_depend_on_their_bytes(
    image: HuffImage,
    row: int,
    other: HuffImage,
    there: int,
    offset: int,
    column: int,
    color: int,
    before: Seq<u16>,
    thumb: Seq<u8>,
)
    requires
        image.nodes == other.nodes,
        image.columns == other.columns,
        0 <= row < image.rows,
        0 <= there < other.rows,
        0 <= column < image.columns,
        0 <= color < 3,
        ({
            let end = if row + 1 < image.rows {
                image.row_offsets[row + 1] as int
            } else {
                image.data.len() as int
            };
            let limit = if there + 1 < other.rows {
                other.row_offsets[there + 1] as int
            } else {
                other.data.len() as int
            };
            image.data.subrange(image.row_offsets[row] as int, end) == other.data.subrange(
                other.row_offsets[there] as int,
                limit,
            )
        }),
    ensures
        ({
            let i = 3 * (row * image.columns + column) + color;
            let j = 3 * (there * image.columns + column) + color;
            let n = (3 * image.rows * image.columns) as int;
            let m = (3 * other.rows * image.columns) as int;
            &&& i < before.len() && j < before.len() ==> image.store16(before, n, offset)[i]
                == other.store16(before, m, offset)[j]
            &&& i < thumb.len() && j < thumb.len() ==> image.store8(thumb, n, offset)[i]
                == other.store8(thumb, m, offset)[j]
        }),
{
    let width = 3 * image.columns as int;
    let k = 3 * column + color;
    let i = row * width + k;
    let j = there * width + k;
    assert(i == 3 * (row * image.columns + column) + color) by (nonlinear_arith)
        requires
            i == row * width + k,
            k == 3 * column + color,
            width == 3 * image.columns,
    ;
    assert(j == 3 * (there * image.columns + column) + color) by (nonlinear_arith)
        requires
            j == there * width + k,
            k == 3 * column + color,
            width == 3 * image.columns,
    ;
    vstd::arithmetic::div_mod::lemma_fundamental_div_mod_converse(i, width, row, k);
    vstd::arithmetic::div_mod::lemma_fundamental_div_mod_converse(j, width, there, k);
    assert(0 <= i < 3 * image.rows * image.columns) by (nonlinear_arith)
        requires
            i == row * width + k,
            0 <= k < width,
            width == 3 * image.columns,
            0 <= row < image.rows,
    ;
    assert(0 <= j < 3 * other.rows * image.columns) by (nonlinear_arith)
        requires
            j == there * width + k,
            0 <= k < width,
            width == 3 * image.columns,
            0 <= there < other.rows,
    ;
    assert(image.row(row as nat, offset) == other.row(there as nat, offset));
}

impl HuffRow {
    /// The least sample is one of them, or zero, and none is below it.
    proof fn lemma_least(self, n: nat)
        ensures
            forall|k: nat| k < n ==> self.lowest(n) <= #[trigger] self.value(k),
            self.lowest(n) <= 0,
            self.lowest(n) < 0 ==> exists|k: nat|
                k < n && #[trigger] self.value(k) == self.lowest(n),
        decreases n,
    {
        reveal(HuffRow::lowest);
        if n > 0 {
            self.lemma_least((n - 1) as nat);
            let v = self.value((n - 1) as nat);
        }
    }
}

impl HuffImage {
    /// The same, of an image.
    proof fn lemma_least(self, n: nat, offset: int)
        ensures
            forall|row: nat, k: nat|
                row < n && k < 3 * self.columns ==> self.lowest(n, offset) <= #[trigger] self.row(
                    row,
                    offset,
                ).value(k),
            self.lowest(n, offset) <= 0,
            self.lowest(n, offset) < 0 ==> exists|row: nat, k: nat|
                row < n && k < 3 * self.columns && #[trigger] self.row(row, offset).value(k)
                    == self.lowest(n, offset),
        decreases n,
    {
        if n > 0 {
            let m = (n - 1) as nat;
            self.lemma_least(m, offset);
            self.row(m, offset).lemma_least((3 * self.columns) as nat);
            if self.lowest(n, offset) < 0 {
                if self.lowest(m, offset) == self.lowest(n, offset) {
                    let (row, k) = choose|row: nat, k: nat|
                        row < m && k < 3 * self.columns && #[trigger] self.row(row, offset).value(k)
                            == self.lowest(m, offset);
                    assert(self.row(row, offset).value(k) == self.lowest(n, offset));
                } else {
                    let k = choose|k: nat|
                        k < 3 * self.columns && #[trigger] self.row(m, offset).value(k) == self.row(
                            m,
                            offset,
                        ).lowest((3 * self.columns) as nat);
                    assert(self.row(m, offset).value(k) == self.lowest(n, offset));
                }
            }
        }
    }
}

/// The starting value of an image is the given one as long as that leaves no
/// sample negative, or no other is to be looked for. Otherwise it is as much above
/// zero as the least of those samples lies below it.
pub proof fn law_starting_value_lifts_the_least_sample(id: ImageData, legacy: LegacyOffset)
    ensures
        ({
            let given = legacy.legacy_offset as int;
            let image = huff_image(id.huffman->0, id.data@, id.rows, id.columns);
            let offset = id.huffman_offset(legacy);
            let negative = exists|row: nat, k: nat|
                row < id.rows && k < 3 * id.columns && #[trigger] image.row(row, given).value(k)
                    < 0;
            &&& !legacy.auto_legacy_offset || !negative ==> offset == given
            &&& legacy.auto_legacy_offset && negative ==> {
                &&& offset > 0
                &&& forall|row: nat, k: nat|
                    row < id.rows && k < 3 * id.columns ==> #[trigger] image.row(row, given).value(
                        k,
                    ) + offset >= 0
                &&& exists|row: nat, k: nat|
                    row < id.rows && k < 3 * id.columns && #[trigger] image.row(row, given).value(k)
                        + offset == 0
            }
        }),
{
    let given = legacy.legacy_offset as int;
    let image = huff_image(id.huffman->0, id.data@, id.rows, id.columns);
    image.lemma_least(id.rows as nat, given);
    let least = image.lowest(id.rows as nat, given);
    if least < 0 {
        let (row, k) = choose|row: nat, k: nat|
            row < id.rows && k < 3 * id.columns && #[trigger] image.row(row, given).value(k)
                == least;
        assert(image.row(row, given).value(k) < 0);
        assert(image.row(row, given).value(k) - least == 0);
        assert(image.row(row, given).value(k) + (-least) == 0);
    }
}

/// An image decodes only if every row lies in the data, has a byte, and holds a
/// readable code for each sample.
pub proof fn law_decodable_rows_lie_in_the_data(id: ImageData, row: int)
    requires
        id.huffman_error() is None,
        0 <= row < id.rows,
    ensures
        ({
            let offsets = id.huffman->0.row_offsets@;
            let end = if row + 1 < id.rows {
                offsets[row + 1] as int
            } else {
                id.data@.len() as int
            };
            offsets.len() == id.rows && offsets[row] < end <= id.data@.len()
        }),
{
    let image = huff_image(id.huffman->0, id.data@, id.rows, id.columns);
    let store = store_error(id.type_format, id.huffman->0);
    if image.error((row + 1) as nat, store) is Some {
        image.lemma_error_stays((row + 1) as nat, id.rows as nat, store);
    }
}

/// The digits of a number are its fields.
proof fn lemma_fields(w: int, m: int, a: int, b: int, c: int, rest: int)
    requires
        m > 0,
        0 <= a < m,
        0 <= b < m,
        0 <= c < m,
        w == a + m * (b + m * (c + m * rest)),
    ensures
        w % m == a,
        (w / m) % m == b,
        (w / m / m) % m == c,
{
    let (q, p) = (b + m * (c + m * rest), c + m * rest);
    assert(w == q * m + a) by (nonlinear_arith)
        requires
            w == a + m * q,
    ;
    vstd::arithmetic::div_mod::lemma_fundamental_div_mod_converse(w, m, q, a);
    assert(q == p * m + b) by (nonlinear_arith)
        requires
            q == b + m * p,
    ;
    vstd::arithmetic::div_mod::lemma_fundamental_div_mod_converse(q, m, p, b);
    assert(p == rest * m + c) by (nonlinear_arith)
        requires
            p == c + m * rest,
    ;
    vstd::arithmetic::div_mod::lemma_fundamental_div_mod_converse(p, m, rest, c);
}

/// The little-endian word of four bytes at an offset.
pub open spec fn word_at(bytes: Seq<u8>, p: int) -> int {
    bytes[p] + 0x100 * bytes[p + 1] + 0x1_0000 * bytes[p + 2] + 0x100_0000 * bytes[p + 3]
}

/// Whether the words of a row that starts at `at` hold, up to a pixel, a field below `m`
/// for each sample, from the lowest bits on: the difference, in 16 bits, to the sample of
/// the same colour in the pixel before (to zero in the first one) or, if there is a
/// mapping, the place of the difference in it.
pub open spec fn packs_row(
    bytes: Seq<u8>,
    at: int,
    m: int,
    mapping: Seq<u16>,
    fields: spec_fn(int, int) -> int,
    rest: spec_fn(int) -> int,
    samples: spec_fn(int, int) -> int,
    column: int,
) -> bool {
    &&& forall|c: int|
        #![trigger rest(c)]
        0 <= c <= column ==> word_at(bytes, at + 4 * c) == fields(c, 0) + m * (fields(c, 1) + m * (
        fields(c, 2) + m * rest(c)))
    &&& forall|c: int, color: int|
        0 <= c <= column && 0 <= color < 3 ==> {
            &&& 0 <= #[trigger] fields(c, color) < m
            &&& 0 <= samples(c, color) < 0x1_0000
            &&& (samples(c, color) - (if c == 0 {
                0
            } else {
                samples(c - 1, color)
            }) - (if mapping.len() == 0 {
                fields(c, color)
            } else {
                mapping[fields(c, color)] as int
            })) % 0x1_0000 == 0
        }
}

impl PackedImage {
    /// What the samples of a row are, from the words that hold it.
    proof fn lemma_read_back(
        self,
        row: int,
        fields: spec_fn(int, int) -> int,
        rest: spec_fn(int) -> int,
        samples: spec_fn(int, int) -> int,
        column: int,
        k: nat,
    )
        requires
            self.modulus > 0,
            k < 3 * column + 3,
            packs_row(
                self.data,
                row * self.stride,
                self.modulus,
                self.mapping,
                fields,
                rest,
                samples,
                column,
            ),
        ensures
            self.value(row, k) == samples(k as int / 3, k as int % 3),
        decreases k,
    {
        reveal(PackedImage::value);
        let (c, color) = (k as int / 3, k as int % 3);
        if k >= 3 {
            self.lemma_read_back(row, fields, rest, samples, column, (k - 3) as nat);
            assert((k - 3) / 3 == c - 1 && (k - 3) % 3 == color);
        }
        let p = row * self.stride + 4 * c;
        let word = word_at(self.data, p);
        let (f0, f1, f2, r) = (fields(c, 0), fields(c, 1), fields(c, 2), rest(c));
        assert(0 <= fields(c, color) < self.modulus);
        lemma_fields(word, self.modulus, f0, f1, f2, r);
        assert(le32(self.data, p) == word);
        assert(self.field(row, k as int) == fields(c, color));
        let previous = if k < 3 {
            0
        } else {
            self.value(row, (k - 3) as nat)
        };
        let d = self.difference(row, k as int);
        assert((samples(c, color) - previous - d) % 0x1_0000 == 0);
    }
}

/// What is stored of a packed row.
pub proof fn lemma_packed_row(
    after: Huffman,
    id: ImageData,
    bits: i32,
    row_stride: i32,
    row: int,
    fields: spec_fn(int, int) -> int,
    rest: spec_fn(int) -> int,
    samples: spec_fn(int, int) -> int,
    column: int,
    color: int,
)
    requires
        8 <= bits <= 10,
        packed_upto(
            after,
            id.huffman->0,
            id.packed(bits, row_stride),
            id.type_format,
            3 * id.rows * id.columns,
        ),
        0 <= row < id.rows,
        0 <= column < id.columns,
        0 <= color < 3,
        packs_row(
            id.data@,
            row * row_stride,
            pow2(bits as nat) as int,
            id.huffman->0.mapping@,
            fields,
            rest,
            samples,
            column,
        ),
    ensures
        ({
            let i = 3 * (row * id.columns + column) + color;
            let v = samples(column, color);
            let t = id.type_format;
            &&& (t == X3F_IMAGE_RAW_HUFFMAN_X530 || t == X3F_IMAGE_RAW_HUFFMAN_10BIT) && i
                < id.huffman->0.x3rgb16.data@.len() ==> after.x3rgb16.data@[i] == (if v < 0x8000 {
                v
            } else {
                0
            })
            &&& t == X3F_IMAGE_THUMB_HUFFMAN && i < id.huffman->0.rgb8.data@.len()
                ==> after.rgb8.data@[i] == (if v % 0x100 < 0x80 {
                v % 0x100
            } else {
                0
            })
        }),
{
    let image = id.packed(bits, row_stride);
    lemma2_to64();
    let i = 3 * (row * id.columns + column) + color;
    let width = 3 * id.columns as int;
    let k = 3 * column + color;
    image.lemma_read_back(row, fields, rest, samples, column, k as nat);
    assert(k / 3 == column && k % 3 == color);
    assert(0 <= fields(column, color));
    assert(i == row * width + k) by (nonlinear_arith)
        requires
            i == 3 * (row * id.columns + column) + color,
            k == 3 * column + color,
            width == 3 * id.columns,
    ;
    vstd::arithmetic::div_mod::lemma_fundamental_div_mod_converse(i, width, row, k);
    assert(0 <= i < 3 * id.rows * id.columns) by (nonlinear_arith)
        requires
            i == 3 * (row * id.columns + column) + color,
            0 <= row < id.rows,
            0 <= column < id.columns,
            0 <= color < 3,
    ;
    let v = image.stored(row, k as nat) as u32;
    assert(v as u8 == v % 0x100) by (bit_vector);
}

/// Decoding a packed image inverts packing it. Each pixel is a little-endian word
/// of four bytes, a row after another at the stride, whose lowest bits hold, colour
/// by colour, a field of so many bits: the difference of the sample to that of the
/// pixel before (to zero in the first one), or the place of the difference in the
/// table. Where that is so up to a pixel, its samples are stored in its place: those
/// that are positive as signed numbers of their size, the others as zero.
pub proof fn law_packed_rows_are_read_back(
    after: Huffman,
    id: ImageData,
    bits: i32,
    row_stride: i32,
    row: int,
    fields: spec_fn(int, int) -> int,
    rest: spec_fn(int) -> int,
    samples: spec_fn(int, int) -> int,
    column: int,
    color: int,
)
    requires
        8 <= bits <= 10,
        packed_upto(
            after,
            id.huffman->0,
            id.packed(bits, row_stride),
            id.type_format,
            3 * id.rows * id.columns,
        ),
        0 <= row < id.rows,
        0 <= column < id.columns,
        0 <= color < 3,
        forall|c: int|
            #![trigger rest(c)]
            0 <= c <= column ==> {
                let p = row * row_stride + 4 * c;
                let m = pow2(bits as nat) as int;
                id.data@[p] + 0x100 * id.data@[p + 1] + 0x1_0000 * id.data@[p + 2] + 0x100_0000
                    * id.data@[p + 3] == fields(c, 0) + m * (fields(c, 1) + m * (fields(c, 2) + m
                    * rest(c)))
            },
        forall|c: int, color: int|
            0 <= c <= column && 0 <= color < 3 ==> {
                let mapping = id.huffman->0.mapping@;
                &&& 0 <= #[trigger] fields(c, color) < pow2(bits as nat)
                &&& 0 <= samples(c, color) < 0x1_0000
                &&& (samples(c, color) - (if c == 0 {
                    0
                } else {
                    samples(c - 1, color)
                }) - (if mapping.len() == 0 {
                    fields(c, color)
                } else {
                    mapping[fields(c, color)] as int
                })) % 0x1_0000 == 0
            },
    ensures
        ({
            let i = 3 * (row * id.columns + column) + color;
            let v = samples(column, color);
            let t = id.type_format;
            &&& (t == X3F_IMAGE_RAW_HUFFMAN_X530 || t == X3F_IMAGE_RAW_HUFFMAN_10BIT) && i
                < id.huffman->0.x3rgb16.data@.len() ==> after.x3rgb16.data@[i] == (if v < 0x8000 {
                v
            } else {
                0
            })
            &&& t == X3F_IMAGE_THUMB_HUFFMAN && i < id.huffman->0.rgb8.data@.len()
                ==> after.rgb8.data@[i] == (if v % 0x100 < 0x80 {
                v % 0x100
            } else {
                0
            })
        }),
{
    lemma_packed_row(
        after,
        id,
        bits,
        row_stride,
        row,
        fields,
        rest,
        samples,
        column,
        color,
    );
}

/// A row is decoded without an error if and only if the code of each sample can be read
/// and the samples can be stored.
proof fn lemma_row_decodes(line: HuffRow, n: nat, store: Option<Error>)
    ensures
        line.error(n, store) is None <==> n == 0 || store is None && (forall|k: nat|
            k < n ==> (#[trigger] line.code(k)) is Ok),
    decreases n,
{
    reveal(HuffRow::error);
    if n > 0 {
        let m = (n - 1) as nat;
        lemma_row_decodes(line, m, store);
        let c = line.code(m);
        if line.error(n, store) is None {
            assert forall|k: nat| k < n implies (#[trigger] line.code(k)) is Ok by {
                if k < m {
                    assert(m > 0);
                    assert(line.code(k) is Ok);
                }
            }
        }
    }
}

proof fn lemma_rows_decode(image: HuffImage, n: nat, store: Option<Error>)
    requires
        forall|row: nat| row < n ==> #[trigger] image.row_error(row, store) is None,
    ensures
        image.error(n, store) is None,
    decreases n,
{
    if n > 0 {
        lemma_rows_decode(image, (n - 1) as nat, store);
        assert(image.row_error((n - 1) as nat, store) is None);
    }
}

/// A Huffman-coded image is decoded without an error if its rows lie in the data and each
/// of them holds a code for every sample.
pub proof fn law_coded_rows_decode(
    id: ImageData,
    samples: spec_fn(int, int, int) -> int,
    leaves: spec_fn(int, int, int) -> u32,
    starts: spec_fn(int, int) -> int,
)
    requires
        id.huffman is Some,
        id.data@.len() > 0,
        id.rows > 0,
        id.columns > 0,
        id.huffman->0.row_offsets@.len() == id.rows,
        store_error(id.type_format, id.huffman->0) is None,
        forall|row: int|
            0 <= row < id.rows ==> {
                let offsets = id.huffman->0.row_offsets@;
                let end = if row + 1 < id.rows {
                    offsets[row + 1] as int
                } else {
                    id.data@.len() as int
                };
                &&& #[trigger] starts(row, 0) == 0
                &&& offsets[row] < end <= id.data@.len()
                &&& codes_row(
                    id.huffman->0.tree.nodes@,
                    id.data@.subrange(offsets[row] as int, end),
                    0,
                    |c: int, color: int| samples(row, c, color),
                    |c: int, color: int| leaves(row, c, color),
                    |k: int| starts(row, k),
                    id.columns - 1,
                )
            },
    ensures
        id.huffman_error() is None,
{
    let image = huff_image(id.huffman->0, id.data@, id.rows, id.columns);
    let store = store_error(id.type_format, id.huffman->0);
    assert forall|row: nat| row < id.rows implies #[trigger] image.row_error(row, store) is None by {
        let r = row as int;
        assert(starts(r, 0) == 0);
        let line = image.row(row, 0);
        let s = |c: int, color: int| samples(r, c, color);
        let l = |c: int, color: int| leaves(r, c, color);
        let p = |k: int| starts(r, k);
        assert(0int as i16 == 0i16);
        assert(p(0) == 0);
        assert forall|k: nat| k < 3 * id.columns implies (#[trigger] line.code(k)) is Ok by {
            line.lemma_read_back(0, s, l, p, id.columns - 1, k);
            let (c, color) = (k as int / 3, k as int % 3);
            assert(l(c, color) >= 0);
            assert(3 * c + color == k);
        }
        lemma_row_decodes(line, (3 * id.columns) as nat, store);
    }
    lemma_rows_decode(image, id.rows as nat, store);
}

/// A packed image is decoded without an error if and only if its rows lie in the data, its
/// samples can be stored, and, where there is a table of differences, each of its fields
/// has an entry there.
pub proof fn law_packed_rows_decode(id: ImageData, bits: i32, row_stride: i32)
    requires
        id.rows > 0,
        id.columns > 0,
    ensures
        id.simple_error(bits, row_stride) is None <==> {
            &&& row_stride > 0
            &&& 8 <= bits <= 10
            &&& id.huffman is Some
            &&& id.data@.len() > 0
            &&& 4 * id.columns <= row_stride
            &&& row_stride * id.rows <= id.data@.len()
            &&& store_error(id.type_format, id.huffman->0) is None
            &&& forall|i: int|
                0 <= i < 3 * id.rows * id.columns ==> {
                    let mapping = id.huffman->0.mapping@;
                    mapping.len() == 0 || #[trigger] id.packed(bits, row_stride).field(
                        i / (3 * id.columns as int),
                        i % (3 * id.columns as int),
                    ) < mapping.len()
                }
        },
{
    let image = id.packed(bits, row_stride);
    let store = store_error(id.type_format, id.huffman->0);
    let n = 3 * id.rows * id.columns;
    assert(n > 0) by (nonlinear_arith)
        requires
            n == 3 * id.rows * id.columns,
            id.rows > 0,
            id.columns > 0,
    ;
    lemma_packed_decodes(image, n as nat, store);
    let w = 3 * id.columns as int;
    assert(3 * image.columns == w);
    let mapped = forall|i: int|
        0 <= i < n ==> (image.mapping.len() == 0 || #[trigger] image.field(i / w, i % w)
            < image.mapping.len());
    assert((image.error(n as nat, store) is None) == (store is None && mapped));
    assert(mapped == (forall|i: int|
        0 <= i < 3 * id.rows * id.columns ==> {
            let mapping = id.huffman->0.mapping@;
            mapping.len() == 0 || #[trigger] id.packed(bits, row_stride).field(
                i / (3 * id.columns as int),
                i % (3 * id.columns as int),
            ) < mapping.len()
        }));
    assert(id.columns * 4 > row_stride <==> !(4 * id.columns <= row_stride));
}

proof fn lemma_packed_decodes(image: PackedImage, n: nat, store: Option<Error>)
    ensures
        image.error(n, store) is None <==> n == 0 || store is None && (forall|i: int|
            0 <= i < n ==> {
                image.mapping.len() == 0 || #[trigger] image.field(
                    i / (3 * image.columns),
                    i % (3 * image.columns),
                ) < image.mapping.len()
            }),
    decreases n,
{
    reveal(PackedImage::error);
    if n > 0 {
        let m = n - 1;
        lemma_packed_decodes(image, m as nat, store);
        let f = image.field(m / (3 * image.columns), m % (3 * image.columns));
        if image.error(n, store) is None {
            assert forall|i: int| 0 <= i < n implies {
                image.mapping.len() == 0 || #[trigger] image.field(
                    i / (3 * image.columns),
                    i % (3 * image.columns),
                ) < image.mapping.len()
            } by {
                if i < m {
                    assert(m > 0);
                }
            }
        }
    }
}

} // verus!
