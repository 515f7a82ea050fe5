//! Loading of image sections: reading of their tables and planes, and decoding.

use crate::area::{Area16, Area8};
use crate::control::{first, Control, Error};
use crate::entropy::{
    bits_value, codes_raster, is_quattro_format, lemma_planes_in_channels,
    spec_is_quattro_format, spec_read_leaf, true_decode,
};
use crate::huffman::{
    codes_row, huff_image, huffman_decode, law_decodable_rows_lie_in_the_data, lemma_coded_row,
    lemma_packed_row, packed_upto, packs_row, simple_decode, stored_upto, word_at, LegacyOffset,
};
use crate::parse::{
    checked_size, law_numbers_are_read_back, law_short_numbers_are_read_back, le16, le32, stands_at,
    written16, written32, Input, MAX_ALLOCATION,
};
use crate::tree::{
    build_tree, code_tree, law_codes_are_numbers, tree_error, true_codes, true_tree,
    true_tree_error, Code,
};
use crate::types::{
    HuffNode, HuffTree, Huffman, ImageData, Quattro, QuattroPlane, True, TrueHuffmanElement,
    X3F_IMAGE_RAW_HUFFMAN_10BIT, X3F_IMAGE_RAW_HUFFMAN_X530, X3F_IMAGE_RAW_MERRILL,
    X3F_IMAGE_RAW_QUATTRO, X3F_IMAGE_RAW_SDQ, X3F_IMAGE_RAW_SDQH, X3F_IMAGE_RAW_TRUE,
    X3F_IMAGE_THUMB_HUFFMAN, X3F_IMAGE_THUMB_JPEG, X3F_IMAGE_THUMB_PLAIN,
};
use vstd::arithmetic::power2::{lemma2_to64, pow2};
use vstd::prelude::*;

verus! {

/// What keeps a raster from being allocated.
pub open spec fn allocate_error(rows: u32, columns: u32, channels: u32) -> Option<Error> {
    if rows == 0 || columns == 0 {
        Some(Error::InvalidData("empty image plane"))
    } else if columns * channels > u32::MAX || rows * (columns * channels) * 2 > MAX_ALLOCATION {
        Some(Error::Allocation)
    } else {
        None
    }
}

/// Whether `area` is a raster of this size without padding, all zero.
pub open spec fn is_blank(area: Area16, rows: u32, columns: u32, channels: u32) -> bool {
    &&& area.rows == rows
    &&& area.columns == columns
    &&& area.channels == channels
    &&& area.row_stride == columns * channels
    &&& area.data@.len() == rows * (columns * channels)
    &&& forall|i: int| 0 <= i < area.data@.len() ==> #[trigger] area.data@[i] == 0
}

/// A blank raster without padding.
fn allocate_image(rows: u32, columns: u32, channels: u32) -> (r: Result<Area16, Error>)
    ensures
        match r {
            Ok(area) => {
                &&& allocate_error(rows, columns, channels) is None
                &&& is_blank(area, rows, columns, channels)
            },
            Err(e) => allocate_error(rows, columns, channels) == Some(e),
        },
{
    if rows == 0 || columns == 0 {
        return Err(Error::InvalidData("empty image plane"));
    }
    let row_stride: u32 = match columns.checked_mul(channels) {
        Some(row_stride) => row_stride,
        None => {
            return Err(Error::Allocation);
        },
    };
    let count: usize = checked_size(rows as usize, row_stride as usize)?;
    checked_size(count, 2)?;
    Ok(Area16 { data: vec![0u16; count], rows, columns, channels, row_stride })
}

/// The columns of Quattro plane `i`, whose sizes start at `at`.
pub open spec fn quattro_columns(bytes: Seq<u8>, at: int, i: int) -> u16 {
    le16(bytes, at + 4 * i)
}

/// The rows of Quattro plane `i`, whose sizes start at `at`.
pub open spec fn quattro_rows(bytes: Seq<u8>, at: int, i: int) -> u16 {
    le16(bytes, at + 4 * i + 2)
}

/// Whether the lower Quattro planes have half of the image's rows.
pub open spec fn quattro_layout(rows: u32, bytes: Seq<u8>, at: int) -> bool {
    quattro_rows(bytes, at, 0) == rows / 2
}

/// What is wrong with the sizes of the Quattro planes.
pub open spec fn quattro_error(
    rows: u32,
    columns: u32,
    bytes: Seq<u8>,
    at: int,
    end: int,
) -> Option<Error> {
    let (c0, r0) = (quattro_columns(bytes, at, 0), quattro_rows(bytes, at, 0));
    let (c1, r1) = (quattro_columns(bytes, at, 1), quattro_rows(bytes, at, 1));
    let (c2, r2) = (quattro_columns(bytes, at, 2), quattro_rows(bytes, at, 2));
    if at + 12 > end {
        Some(Error::InvalidData("truncated input"))
    } else if r0 != rows / 2 && r0 != rows {
        Some(Error::InvalidData("unknown Quattro layer size"))
    } else if c0 != c1 || r0 != r1 {
        Some(Error::InvalidData("inconsistent Quattro lower planes"))
    } else if quattro_layout(rows, bytes, at) {
        if c0 * 2 > c2 || r0 * 2 > r2 {
            Some(Error::InvalidData("inconsistent Quattro top plane"))
        } else {
            None
        }
    } else if r0 != rows || r1 != rows || r2 != rows || c0 < columns || c1 < columns || c2
        < columns {
        Some(Error::InvalidData("inconsistent binned Quattro planes"))
    } else {
        None
    }
}

/// Whether `q` holds these plane sizes.
pub open spec fn quattro_is(q: Quattro, rows: u32, bytes: Seq<u8>, at: int) -> bool {
    &&& forall|i: int|
        0 <= i < 3 ==> (#[trigger] q.plane[i]).columns == quattro_columns(bytes, at, i)
            && q.plane[i].rows == quattro_rows(bytes, at, i)
    &&& q.quattro_layout == quattro_layout(rows, bytes, at)
}

/// Reads the sizes of the Quattro planes.
fn read_quattro(input: &mut Input<'_>, rows: u32, columns: u32) -> (r: Result<Quattro, Error>)
    requires
        old(input).inv(),
    ensures
        final(input).moved_from(*old(input)),
        ({
            let bytes = old(input).bytes();
            let at = old(input).pos();
            let end = old(input).bound();
            match r {
                Ok(q) => {
                    &&& quattro_error(rows, columns, bytes, at, end) is None
                    &&& quattro_is(q, rows, bytes, at)
                    &&& q.unknown == 0
                    &&& q.top16.data@.len() == 0
                    &&& q.top16.rows == 0
                    &&& q.top16.columns == 0
                    &&& q.top16.channels == 0
                    &&& q.top16.row_stride == 0
                    &&& final(input).pos() == at + 12
                },
                Err(Error::Cancelled) => old(input).guard().may_read(true),
                Err(e) => quattro_error(rows, columns, bytes, at, end) == Some(e),
            }
        }),
{
    let c0: u16 = input.u16()?;
    let r0: u16 = input.u16()?;
    let c1: u16 = input.u16()?;
    let r1: u16 = input.u16()?;
    let c2: u16 = input.u16()?;
    let r2: u16 = input.u16()?;
    let layout: bool = if r0 as u32 == rows / 2 {
        true
    } else if r0 as u32 == rows {
        false
    } else {
        return Err(Error::InvalidData("unknown Quattro layer size"));
    };
    if c0 != c1 || r0 != r1 {
        return Err(Error::InvalidData("inconsistent Quattro lower planes"));
    }
    if layout {
        if c0 as u32 * 2 > c2 as u32 || r0 as u32 * 2 > r2 as u32 {
            return Err(Error::InvalidData("inconsistent Quattro top plane"));
        }
    } else if r0 as u32 != rows || r1 as u32 != rows || r2 as u32 != rows || (c0 as u32) < columns
        || (c1 as u32) < columns || (c2 as u32) < columns {
        return Err(Error::InvalidData("inconsistent binned Quattro planes"));
    }
    Ok(
        Quattro {
            plane: [
                QuattroPlane { columns: c0, rows: r0 },
                QuattroPlane { columns: c1, rows: r1 },
                QuattroPlane { columns: c2, rows: r2 },
            ],
            unknown: 0,
            quattro_layout: layout,
            top16: Area16::empty(),
        },
    )
}

/// The number of entries of a TRUE table at `at`, from entry `i` on: it ends
/// with the first entry of code size zero, or where the input or its limit ends.
pub open spec fn table_end(bytes: Seq<u8>, at: int, end: int, i: int) -> int
    decreases 32 - i,
{
    if i >= 32 || at + 2 * i + 2 > end || bytes[at + 2 * i] == 0 {
        i
    } else {
        table_end(bytes, at, end, i + 1)
    }
}

/// What is wrong with the TRUE table at `at`.
pub open spec fn table_error(bytes: Seq<u8>, at: int, end: int) -> Option<Error> {
    let n = table_end(bytes, at, end, 0);
    if n >= 32 {
        Some(Error::InvalidData("unterminated TRUE table"))
    } else if at + 2 * n + 2 > end {
        Some(Error::InvalidData("truncated input"))
    } else {
        None
    }
}

/// The TRUE table at `at`, with its last entry of code size zero.
pub open spec fn table_at(bytes: Seq<u8>, at: int, end: int) -> Seq<TrueHuffmanElement> {
    Seq::new(
        (table_end(bytes, at, end, 0) + 1) as nat,
        |i: int| TrueHuffmanElement { code_size: bytes[at + 2 * i], code: bytes[at + 2 * i + 1] },
    )
}

/// The table ends at or after the entry where the search for its end starts.
proof fn lemma_table_end(bytes: Seq<u8>, at: int, end: int, i: int)
    requires
        0 <= i <= 32,
    ensures
        i <= table_end(bytes, at, end, i) <= 32,
    decreases 32 - i,
{
    if !(i >= 32 || at + 2 * i + 2 > end || bytes[at + 2 * i] == 0) {
        lemma_table_end(bytes, at, end, i + 1);
    }
}

/// Reads a TRUE table.
fn read_table(input: &mut Input<'_>) -> (r: Result<Vec<TrueHuffmanElement>, Error>)
    requires
        old(input).inv(),
    ensures
        final(input).moved_from(*old(input)),
        ({
            let bytes = old(input).bytes();
            let at = old(input).pos();
            let end = old(input).bound();
            match r {
                Ok(table) => {
                    &&& table_error(bytes, at, end) is None
                    &&& table@ == table_at(bytes, at, end)
                    &&& 1 <= table@.len() <= 32
                    &&& final(input).pos() == at + 2 * table@.len()
                },
                Err(Error::Cancelled) => old(input).guard().may_read(true),
                Err(e) => table_error(bytes, at, end) == Some(e),
            }
        }),
{
    let ghost bytes = input.bytes();
    let ghost at = input.pos();
    let ghost end = input.bound();
    let mut table: Vec<TrueHuffmanElement> = Vec::new();
    proof {
        input.lemma_inv();
        lemma_table_end(bytes, at, end, 0);
    }
    loop
        invariant
            table@.len() < 32,
            input.moved_from(*old(input)),
            bytes == old(input).bytes(),
            at == old(input).pos(),
            end == old(input).bound(),
            input.pos() == at + 2 * table@.len(),
            table_end(bytes, at, end, 0) == table_end(bytes, at, end, table@.len() as int),
            forall|i: int|
                0 <= i < table@.len() ==> #[trigger] table@[i] == (TrueHuffmanElement {
                    code_size: bytes[at + 2 * i],
                    code: bytes[at + 2 * i + 1],
                }),
        decreases 32 - table@.len(),
    {
        let ghost n = table@.len() as int;
        let code_size: u8 = input.u8()?;
        let code: u8 = input.u8()?;
        table.push(TrueHuffmanElement { code_size, code });
        if code_size == 0 {
            assert(table_end(bytes, at, end, n) == n);
            assert(table@ =~= table_at(bytes, at, end));
            return Ok(table);
        }
        assert(table_end(bytes, at, end, n) == table_end(bytes, at, end, n + 1));
        if table.len() >= 32 {
            return Err(Error::InvalidData("unterminated TRUE table"));
        }
    }
}

/// Where plane `k` starts in the image data: planes follow each other at
/// multiples of sixteen bytes. The plane sizes start at `at`.
pub open spec fn plane_start(bytes: Seq<u8>, at: int, k: nat) -> int
    decreases k,
{
    if k == 0 {
        0
    } else {
        plane_start(bytes, at, (k - 1) as nat) + (le32(bytes, at + 4 * (k - 1)) + 15) / 16 * 16
    }
}

/// What is wrong with the first `k` plane sizes, given the size of the data.
pub open spec fn planes_error(bytes: Seq<u8>, at: int, data_size: int, k: nat) -> Option<Error>
    decreases k,
{
    if k == 0 {
        None
    } else {
        let size = le32(bytes, at + 4 * (k - 1)) as int;
        first(
            planes_error(bytes, at, data_size, (k - 1) as nat),
            if size == 0 || plane_start(bytes, at, (k - 1) as nat) + size > data_size {
                Some(Error::InvalidData("TRUE plane outside image data"))
            } else {
                None
            },
        )
    }
}

/// Where the parts of a TRUE-coded body lie that starts at `start`.
pub ghost struct TrueBody {
    pub seeds: int,
    pub table: int,
    pub unknown: int,
    pub sizes: int,
    pub data: int,
}

/// The layout of a TRUE-coded body.
pub open spec fn true_body(quattro: bool, bytes: Seq<u8>, start: int, end: int) -> TrueBody {
    let seeds = if quattro {
        start + 12
    } else {
        start
    };
    let table = seeds + 8;
    let unknown = table + 2 * (table_end(bytes, table, end, 0) + 1);
    let sizes = if quattro {
        unknown + 4
    } else {
        unknown
    };
    TrueBody { seeds, table, unknown, sizes, data: sizes + 12 }
}

/// What keeps a TRUE-coded body, `bytes[start..end]`, from being decoded at all.
pub open spec fn true_setup_error(id: ImageData, bytes: Seq<u8>, start: int, end: int) -> Option<
    Error,
> {
    let quattro = spec_is_quattro_format(id.type_format);
    let body = true_body(quattro, bytes, start, end);
    let truncated = Some(Error::InvalidData("truncated input"));
    let table = table_at(bytes, body.table, end);
    if quattro && quattro_error(id.rows, id.columns, bytes, start, end) is Some {
        quattro_error(id.rows, id.columns, bytes, start, end)
    } else if body.seeds + 8 > end {
        truncated
    } else if table_error(bytes, body.table, end) is Some {
        table_error(bytes, body.table, end)
    } else if body.data > end {
        truncated
    } else if end - body.data > MAX_ALLOCATION {
        Some(Error::Allocation)
    } else if true_tree_error(table) is Some {
        true_tree_error(table)
    } else if planes_error(bytes, body.sizes, end - body.data, 3) is Some {
        planes_error(bytes, body.sizes, end - body.data, 3)
    } else if quattro && quattro_layout(id.rows, bytes, start) {
        first(
            allocate_error(
                quattro_rows(bytes, start, 0) as u32,
                quattro_columns(bytes, start, 0) as u32,
                3,
            ),
            allocate_error(
                quattro_rows(bytes, start, 2) as u32,
                quattro_columns(bytes, start, 2) as u32,
                1,
            ),
        )
    } else {
        allocate_error(id.rows, id.columns, 3)
    }
}

/// The section's header, which loading leaves alone.
pub open spec fn same_image_header(a: ImageData, b: ImageData) -> bool {
    &&& a.type_ == b.type_
    &&& a.format == b.format
    &&& a.type_format == b.type_format
    &&& a.columns == b.columns
    &&& a.rows == b.rows
    &&& a.row_stride == b.row_stride
}

/// Whether `mid` is the image as it stands before its planes are decoded: with
/// its tables read and its rasters blank.
pub open spec fn true_prepared(
    mid: ImageData,
    id: ImageData,
    bytes: Seq<u8>,
    start: int,
    end: int,
) -> bool {
    let quattro = spec_is_quattro_format(id.type_format);
    let body = true_body(quattro, bytes, start, end);
    let tru = mid.tru->0;
    let q = mid.quattro->0;
    let table = table_at(bytes, body.table, end);
    &&& same_image_header(mid, id)
    &&& mid.huffman is None
    &&& mid.data@ == bytes.subrange(body.data, end)
    &&& mid.tru is Some
    &&& forall|i: int| 0 <= i < 3 ==> #[trigger] tru.seed[i] == le16(bytes, body.seeds + 2 * i)
    &&& tru.unknown == le16(bytes, body.seeds + 6)
    &&& tru.table@ == table
    &&& tru.plane_size@.len() == 3
    &&& forall|i: int|
        0 <= i < 3 ==> #[trigger] tru.plane_size@[i] == le32(bytes, body.sizes + 4 * i)
    &&& forall|i: int|
        0 <= i < 3 ==> #[trigger] tru.plane_offset[i] == plane_start(bytes, body.sizes, i as nat)
    &&& code_tree(tru.tree.nodes@, true_codes(table, table.len()))
    &&& mid.quattro is Some <==> quattro
    &&& quattro ==> quattro_is(q, id.rows, bytes, start) && q.unknown == le32(bytes, body.unknown)
    &&& if quattro && quattro_layout(id.rows, bytes, start) {
        &&& is_blank(tru.x3rgb16, q.plane[0].rows as u32, q.plane[0].columns as u32, 3)
        &&& is_blank(q.top16, q.plane[2].rows as u32, q.plane[2].columns as u32, 1)
    } else {
        &&& is_blank(tru.x3rgb16, id.rows, id.columns, 3)
        &&& quattro ==> q.top16.data@.len() == 0 && q.top16.rows == 0
    }
}

/// Whether `done` is `mid` with its planes decoded.
pub open spec fn true_decoded(done: ImageData, mid: ImageData) -> bool {
    &&& mid.true_error() is None
    &&& done.same_but_rasters(mid)
    &&& done.tru->0.x3rgb16.data@ == mid.decoded_raster()
    &&& mid.quattro is Some ==> done.quattro->0.top16.data@ == mid.decoded_top()
}

/// Reads the tables of a TRUE-coded image, and allocates its rasters.
#[verifier::rlimit(40)]
fn prepare_true(id: &mut ImageData, input: &mut Input<'_>) -> (r: Result<(), Error>)
    requires
        old(input).inv(),
        old(id).unloaded(),
    ensures
        same_image_header(*final(id), *old(id)),
        ({
            let bytes = old(input).bytes();
            let start = old(input).pos();
            let end = old(input).bound();
            match r {
                Ok(_) => {
                    &&& true_setup_error(*old(id), bytes, start, end) is None
                    &&& true_prepared(*final(id), *old(id), bytes, start, end)
                    &&& final(id).rasters_hold()
                },
                Err(Error::Cancelled) => old(input).guard().may_read(true),
                Err(e) => true_setup_error(*old(id), bytes, start, end) == Some(e),
            }
        }),
{
    let ghost bytes = input.bytes();
    let ghost start = input.pos();
    let ghost end = input.bound();
    let ghost id0 = *id;
    let quattro: bool = is_quattro_format(id.type_format);
    let ghost body = true_body(quattro, bytes, start, end);
    proof {
        input.lemma_inv();
    }
    let mut q: Option<Quattro> = None;
    if quattro {
        q = Some(read_quattro(input, id.rows, id.columns)?);
    }
    let s0: u16 = input.u16()?;
    let s1: u16 = input.u16()?;
    let s2: u16 = input.u16()?;
    let unknown: u16 = input.u16()?;
    let table: Vec<TrueHuffmanElement> = read_table(input)?;
    proof {
        lemma_table_end(bytes, body.table, end, 0);
    }
    if let Some(q) = &mut q {
        q.unknown = input.u32()?;
    }
    let p0: u32 = input.u32()?;
    let p1: u32 = input.u32()?;
    let p2: u32 = input.u32()?;
    let rest: usize = input.remaining();
    proof {
        input.lemma_inv();
    }
    let data: Vec<u8> = input.read_alloc(rest)?;
    let tree: HuffTree = true_tree(&table)?;
    proof {
        reveal_with_fuel(plane_start, 3);
        reveal_with_fuel(planes_error, 4);
    }
    let size: u64 = data.len() as u64;
    let o1: u64 = (p0 as u64 + 15) / 16 * 16;
    let o2: u64 = o1 + (p1 as u64 + 15) / 16 * 16;
    if p0 == 0 || p0 as u64 > size || p1 == 0 || o1 + p1 as u64 > size || p2 == 0 || o2
        + p2 as u64 > size {
        return Err(Error::InvalidData("TRUE plane outside image data"));
    }
    let mut raster: Area16 = Area16::empty();
    let mut half: bool = false;
    if let Some(q) = &mut q {
        half = q.quattro_layout;
        if half {
            raster = allocate_image(q.plane[0].rows as u32, q.plane[0].columns as u32, 3)?;
            q.top16 = allocate_image(q.plane[2].rows as u32, q.plane[2].columns as u32, 1)?;
        }
    }
    if !half {
        raster = allocate_image(id.rows, id.columns, 3)?;
    }
    id.tru = Some(
        True {
            seed: [s0, s1, s2],
            unknown,
            table,
            plane_size: vec![p0, p1, p2],
            plane_offset: [0, o1 as usize, o2 as usize],
            tree,
            x3rgb16: raster,
        },
    );
    id.quattro = q;
    id.data = data;
    Ok(())
}

/// Loads a TRUE-coded image. After an error the image may hold part of it.
fn load_true(id: &mut ImageData, input: &mut Input<'_>, control: Control<'_>) -> (r: Result<
    (),
    Error,
>)
    requires
        old(input).inv(),
        old(input).guard() == control,
        old(id).unloaded(),
    ensures
        same_image_header(*final(id), *old(id)),
        ({
            let bytes = old(input).bytes();
            let start = old(input).pos();
            let end = old(input).bound();
            match r {
                Ok(_) => {
                    &&& true_setup_error(*old(id), bytes, start, end) is None
                    &&& exists|mid: ImageData| #[trigger]
                        true_prepared(mid, *old(id), bytes, start, end) && true_decoded(
                            *final(id),
                            mid,
                        )
                    &&& control.may_read(false)
                },
                Err(Error::Cancelled) => control.may_read(true),
                Err(e) => {
                    ||| true_setup_error(*old(id), bytes, start, end) == Some(e)
                    ||| true_setup_error(*old(id), bytes, start, end) is None && exists|
                        mid: ImageData,
                    | #[trigger]
                        true_prepared(mid, *old(id), bytes, start, end) && mid.true_error() == Some(
                            e,
                        )
                },
            }
        }),
{
    prepare_true(id, input)?;
    true_decode(id, control)
}


/// The codes of the first `n` entries of a packed code table: each holds the
/// length of a code in its upper five bits and the code below them. A code
/// stands for the entry of the same place in the mapping, if the mapping is as
/// long as the table, or for its place.
pub open spec fn huffman_codes(table: Seq<u32>, mapping: Seq<u16>, n: nat) -> Seq<Code>
    decreases n,
{
    if n == 0 {
        Seq::empty()
    } else {
        let before = huffman_codes(table, mapping, (n - 1) as nat);
        let packed = table[n - 1];
        let value = if mapping.len() == table.len() {
            mapping[n - 1] as u32
        } else {
            (n - 1) as u32
        };
        if packed == 0 {
            before
        } else {
            before.push((packed / 0x0800_0000, packed % 0x0800_0000, value))
        }
    }
}

/// Where the parts of a Huffman-coded or packed body lie that starts at `start`.
pub ghost struct HuffBody {
    pub table: int,
    pub data: int,
    pub data_end: int,
}

/// The layout of a Huffman-coded or packed body, with `n` entries per table. A
/// coded one has a code table before its data and row offsets after them.
pub open spec fn huff_body(id: ImageData, n: int, mapped: bool, start: int, end: int) -> HuffBody {
    let table = if mapped {
        start + 2 * n
    } else {
        start
    };
    if id.row_stride == 0 {
        HuffBody { table, data: table + 4 * n, data_end: end - 4 * id.rows }
    } else {
        HuffBody { table, data: table, data_end: end }
    }
}

/// The mapping of a body.
pub open spec fn mapping_at(bytes: Seq<u8>, n: int, mapped: bool, start: int) -> Seq<u16> {
    if mapped {
        Seq::new(n as nat, |i: int| le16(bytes, start + 2 * i))
    } else {
        Seq::empty()
    }
}

/// `n` 32-bit words at `at`.
pub open spec fn words_at(bytes: Seq<u8>, at: int, n: int) -> Seq<u32> {
    Seq::new(n as nat, |i: int| le32(bytes, at + 4 * i))
}

/// What keeps the raster of a Huffman-coded or packed image from being
/// allocated.
pub open spec fn store_alloc_error(id: ImageData) -> Option<Error> {
    if id.type_format == X3F_IMAGE_THUMB_HUFFMAN {
        if id.columns * id.rows > MAX_ALLOCATION || id.columns * id.rows * 3 > MAX_ALLOCATION {
            Some(Error::Allocation)
        } else {
            None
        }
    } else {
        allocate_error(id.rows, id.columns, 3)
    }
}

/// What keeps a Huffman-coded or packed body, `bytes[start..end]`, from being
/// decoded at all.
pub open spec fn huffman_setup_error(
    id: ImageData,
    bits: u32,
    mapped: bool,
    bytes: Seq<u8>,
    start: int,
    end: int,
) -> Option<Error> {
    let n: int = if bits == 10 {
        1024
    } else {
        256
    };
    let body = huff_body(id, n, mapped, start, end);
    let codes = huffman_codes(
        words_at(bytes, body.table, n),
        mapping_at(bytes, n, mapped, start),
        n as nat,
    );
    let truncated = Some(Error::InvalidData("truncated input"));
    if body.table > end {
        truncated
    } else if store_alloc_error(id) is Some {
        store_alloc_error(id)
    } else if id.row_stride == 0 {
        if body.data > end {
            truncated
        } else if id.rows * 4 > MAX_ALLOCATION {
            Some(Error::Allocation)
        } else if body.data > body.data_end {
            Some(Error::InvalidData("missing Huffman row offsets"))
        } else if body.data_end - body.data > MAX_ALLOCATION {
            Some(Error::Allocation)
        } else {
            tree_error(codes)
        }
    } else if end - body.data > MAX_ALLOCATION {
        Some(Error::Allocation)
    } else {
        None
    }
}

/// Whether `mid` is the image as it stands before it is decoded: with its tables
/// read and its raster blank.
pub open spec fn huffman_prepared(
    mid: ImageData,
    id: ImageData,
    bits: u32,
    mapped: bool,
    bytes: Seq<u8>,
    start: int,
    end: int,
) -> bool {
    let n: int = if bits == 10 {
        1024
    } else {
        256
    };
    let body = huff_body(id, n, mapped, start, end);
    let h = mid.huffman->0;
    &&& same_image_header(mid, id)
    &&& mid.tru is None
    &&& mid.quattro is None
    &&& mid.huffman is Some
    &&& mid.data@ == bytes.subrange(body.data, body.data_end)
    &&& h.mapping@ == mapping_at(bytes, n, mapped, start)
    &&& if id.row_stride == 0 {
        &&& h.table@ == words_at(bytes, body.table, n)
        &&& h.row_offsets@ == words_at(bytes, body.data_end, id.rows as int)
        &&& code_tree(h.tree.nodes@, huffman_codes(h.table@, h.mapping@, n as nat))
    } else {
        &&& h.table@.len() == 0
        &&& h.row_offsets@.len() == 0
        &&& h.tree.nodes@.len() == 0
    }
    &&& if id.type_format == X3F_IMAGE_THUMB_HUFFMAN {
        &&& h.x3rgb16.data@.len() == 0
        &&& h.rgb8.data@.len() == id.columns * id.rows * 3
        &&& forall|i: int| 0 <= i < h.rgb8.data@.len() ==> #[trigger] h.rgb8.data@[i] == 0
        // The fields that the thumbnail has always been described by.
        &&& h.rgb8.columns == id.rows
        &&& h.rgb8.rows == 0
        &&& h.rgb8.channels == 3
        &&& h.rgb8.row_stride == id.columns * 3
    } else {
        &&& is_blank(h.x3rgb16, id.rows, id.columns, 3)
        &&& h.rgb8.data@.len() == 0
    }
}

/// The first error in decoding a prepared image.
pub open spec fn huffman_body_error(mid: ImageData, bits: u32) -> Option<Error> {
    if mid.row_stride == 0 {
        mid.huffman_error()
    } else {
        mid.simple_error(bits as i32, mid.row_stride as i32)
    }
}

/// Whether `done` is `mid` with its samples decoded.
pub open spec fn huffman_decoded(
    done: ImageData,
    mid: ImageData,
    bits: u32,
    legacy: LegacyOffset,
) -> bool {
    let n = 3 * mid.rows * mid.columns;
    &&& huffman_body_error(mid, bits) is None
    &&& done.same_but_huffman(mid)
    &&& if mid.row_stride == 0 {
        stored_upto(
            done.huffman->0,
            mid.huffman->0,
            huff_image(mid.huffman->0, mid.data@, mid.rows, mid.columns),
            mid.type_format,
            n,
            mid.huffman_offset(legacy),
        )
    } else {
        packed_upto(
            done.huffman->0,
            mid.huffman->0,
            mid.packed(bits as i32, mid.row_stride as i32),
            mid.type_format,
            n,
        )
    }
}

/// Reads `n` 16-bit values.
fn read_u16s(input: &mut Input<'_>, n: usize) -> (r: Result<Vec<u16>, Error>)
    requires
        old(input).inv(),
        n <= 1024,
    ensures
        final(input).moved_from(*old(input)),
        match r {
            Ok(v) => {
                &&& old(input).pos() + 2 * n <= old(input).bound()
                &&& v@ == Seq::new(
                    n as nat,
                    |i: int| le16(old(input).bytes(), old(input).pos() + 2 * i),
                )
                &&& final(input).pos() == old(input).pos() + 2 * n
            },
            Err(Error::Cancelled) => old(input).guard().may_read(true),
            Err(e) => old(input).pos() + 2 * n > old(input).bound() && e == Error::InvalidData(
                "truncated input",
            ),
        },
{
    let mut v: Vec<u16> = Vec::new();
    proof {
        input.lemma_inv();
    }
    while v.len() < n
        invariant
            v@.len() <= n,
            input.moved_from(*old(input)),
            input.pos() == old(input).pos() + 2 * v@.len(),
            input.pos() <= input.bound(),
            forall|i: int|
                0 <= i < v@.len() ==> #[trigger] v@[i] == le16(
                    old(input).bytes(),
                    old(input).pos() + 2 * i,
                ),
        decreases n - v@.len(),
    {
        let value: u16 = input.u16()?;
        proof {
            input.lemma_inv();
        }
        v.push(value);
    }
    assert(v@ =~= Seq::new(n as nat, |i: int| le16(old(input).bytes(), old(input).pos() + 2 * i)));
    Ok(v)
}

/// Reads `n` 32-bit values.
fn read_u32s(input: &mut Input<'_>, n: usize) -> (r: Result<Vec<u32>, Error>)
    requires
        old(input).inv(),
        n <= MAX_ALLOCATION,
    ensures
        final(input).moved_from(*old(input)),
        match r {
            Ok(v) => {
                &&& old(input).pos() + 4 * n <= old(input).bound()
                &&& v@ == words_at(old(input).bytes(), old(input).pos(), n as int)
                &&& final(input).pos() == old(input).pos() + 4 * n
            },
            Err(Error::Cancelled) => old(input).guard().may_read(true),
            Err(e) => old(input).pos() + 4 * n > old(input).bound() && e == Error::InvalidData(
                "truncated input",
            ),
        },
{
    let mut v: Vec<u32> = Vec::new();
    proof {
        input.lemma_inv();
    }
    while v.len() < n
        invariant
            v@.len() <= n,
            input.moved_from(*old(input)),
            input.pos() == old(input).pos() + 4 * v@.len(),
            input.pos() <= input.bound(),
            forall|i: int|
                0 <= i < v@.len() ==> #[trigger] v@[i] == le32(
                    old(input).bytes(),
                    old(input).pos() + 4 * i,
                ),
        decreases n - v@.len(),
    {
        let value: u32 = input.u32()?;
        proof {
            input.lemma_inv();
        }
        v.push(value);
    }
    assert(v@ =~= words_at(old(input).bytes(), old(input).pos(), n as int));
    Ok(v)
}

/// The codes of a packed code table.
fn collect_codes(table: &Vec<u32>, mapping: &Vec<u16>) -> (codes: Vec<Code>)
    requires
        table@.len() <= 1024,
    ensures
        codes@ == huffman_codes(table@, mapping@, table@.len()),
{
    let mut codes: Vec<Code> = Vec::new();
    let mut i: usize = 0;
    while i < table.len()
        invariant
            i <= table@.len() <= 1024,
            codes@ == huffman_codes(table@, mapping@, i as nat),
        decreases table@.len() - i,
    {
        let packed: u32 = table[i];
        if packed != 0 {
            let value: u32 = if mapping.len() == table.len() {
                mapping[i] as u32
            } else {
                i as u32
            };
            codes.push((packed / 0x0800_0000, packed % 0x0800_0000, value));
        }
        i = i + 1;
    }
    codes
}

/// Loads a Huffman-coded or packed image. After an error the image may hold part
/// of it.
fn load_huffman(
    id: &mut ImageData,
    input: &mut Input<'_>,
    bits: u32,
    mapped: bool,
    legacy: LegacyOffset,
    control: Control<'_>,
) -> (r: Result<(), Error>)
    requires
        old(input).inv(),
        old(input).guard() == control,
        old(id).unloaded(),
        old(id).rows > 0,
        bits == 10 || bits == 8,
    ensures
        same_image_header(*final(id), *old(id)),
        ({
            let bytes = old(input).bytes();
            let start = old(input).pos();
            let end = old(input).bound();
            let setup = huffman_setup_error(*old(id), bits, mapped, bytes, start, end);
            match r {
                Ok(_) => {
                    &&& setup is None
                    &&& exists|mid: ImageData| #[trigger]
                        huffman_prepared(mid, *old(id), bits, mapped, bytes, start, end)
                            && huffman_decoded(*final(id), mid, bits, legacy)
                    &&& control.may_read(false)
                },
                Err(Error::Cancelled) => control.may_read(true),
                Err(e) => {
                    ||| setup == Some(e)
                    ||| setup is None && exists|mid: ImageData| #[trigger]
                        huffman_prepared(mid, *old(id), bits, mapped, bytes, start, end)
                            && huffman_body_error(mid, bits) == Some(e)
                },
            }
        }),
{
    let ghost bytes = input.bytes();
    let ghost start = input.pos();
    let ghost end = input.bound();
    let ghost id0 = *id;
    let n: usize = if bits == 10 {
        1024
    } else {
        256
    };
    let ghost body = huff_body(id0, n as int, mapped, start, end);
    proof {
        input.lemma_inv();
    }
    let mapping: Vec<u16> = if mapped {
        read_u16s(input, n)?
    } else {
        Vec::new()
    };
    assert(mapping@ =~= mapping_at(bytes, n as int, mapped, start));
    let mut h: Huffman = Huffman {
        mapping,
        table: Vec::new(),
        tree: HuffTree::empty(),
        row_offsets: Vec::new(),
        rgb8: Area8::empty(),
        x3rgb16: Area16::empty(),
    };
    if id.type_format == X3F_IMAGE_THUMB_HUFFMAN {
        let pixels: usize = checked_size(id.columns as usize, id.rows as usize)?;
        let count: usize = checked_size(pixels, 3)?;
        assert(id.columns <= id.columns * id.rows) by (nonlinear_arith)
            requires
                id.rows >= 1,
        ;
        h.rgb8 = Area8 {
            data: vec![0u8; count],
            rows: 0,
            columns: id.rows,
            channels: 3,
            row_stride: id.columns * 3,
        };
    } else {
        h.x3rgb16 = allocate_image(id.rows, id.columns, 3)?;
    }
    assert(3 * id0.rows * id0.columns == id0.rows * (id0.columns * 3)) by (nonlinear_arith);
    assert(3 * id0.rows * id0.columns == id0.columns * id0.rows * 3) by (nonlinear_arith);
    if id.row_stride == 0 {
        h.table = read_u32s(input, n)?;
        let footer: usize = checked_size(id.rows as usize, 4)?;
        let rest: usize = input.remaining();
        if rest < footer {
            return Err(Error::InvalidData("missing Huffman row offsets"));
        }
        let data: Vec<u8> = input.read_alloc(rest - footer)?;
        h.row_offsets = read_u32s(input, id.rows as usize)?;
        let codes: Vec<Code> = collect_codes(&h.table, &h.mapping);
        h.tree = build_tree(codes.as_slice())?;
        id.data = data;
        id.huffman = Some(h);
        let ghost mid = *id;
        assert(huffman_prepared(mid, id0, bits, mapped, bytes, start, end));
        huffman_decode(id, bits as i32, legacy, control)
    } else {
        let rest: usize = input.remaining();
        id.data = input.read_alloc(rest)?;
        id.huffman = Some(h);
        let ghost mid = *id;
        assert(huffman_prepared(mid, id0, bits, mapped, bytes, start, end));
        simple_decode(id, bits as i32, id.row_stride as i32, control)
    }
}

/// Whether the format is decoded by the TRUE decoder.
pub open spec fn is_true_format(t: u32) -> bool {
    ||| t == X3F_IMAGE_RAW_TRUE
    ||| t == X3F_IMAGE_RAW_MERRILL
    ||| spec_is_quattro_format(t)
}

/// The bits per difference of the Huffman and packed formats.
pub open spec fn huffman_bits(t: u32) -> u32 {
    if t == X3F_IMAGE_THUMB_HUFFMAN {
        8
    } else {
        10
    }
}

/// Whether loading the body `bytes[start..end]` of an image fails with `error`.
pub open spec fn image_fails(
    id: ImageData,
    bytes: Seq<u8>,
    start: int,
    end: int,
    error: Error,
) -> bool {
    let t = id.type_format;
    let bits = huffman_bits(t);
    let mapped = bits == 10;
    if is_true_format(t) {
        match true_setup_error(id, bytes, start, end) {
            Some(e) => e == error,
            None => exists|mid: ImageData| #[trigger]
                true_prepared(mid, id, bytes, start, end) && mid.true_error() == Some(error),
        }
    } else if crate::huffman::is_huffman16(t) || t == X3F_IMAGE_THUMB_HUFFMAN {
        match huffman_setup_error(id, bits, mapped, bytes, start, end) {
            Some(e) => e == error,
            None => exists|mid: ImageData| #[trigger]
                huffman_prepared(mid, id, bits, mapped, bytes, start, end) && huffman_body_error(
                    mid,
                    bits,
                ) == Some(error),
        }
    } else if t == X3F_IMAGE_THUMB_PLAIN || t == X3F_IMAGE_THUMB_JPEG {
        if end - start > MAX_ALLOCATION {
            error == Error::Allocation
        } else if t == X3F_IMAGE_THUMB_PLAIN && id.rows * id.row_stride > MAX_ALLOCATION {
            error == Error::Allocation
        } else {
            &&& t == X3F_IMAGE_THUMB_PLAIN
            &&& id.rows * id.row_stride > end - start
            &&& error == Error::InvalidData("truncated thumbnail raster")
        }
    } else {
        error == Error::InvalidData("unsupported image encoding")
    }
}

/// Whether `done` is the image loaded from its body, `bytes[start..end]`.
pub open spec fn image_loaded(
    done: ImageData,
    id: ImageData,
    bytes: Seq<u8>,
    start: int,
    end: int,
    legacy: LegacyOffset,
) -> bool {
    let t = id.type_format;
    let bits = huffman_bits(t);
    let mapped = bits == 10;
    &&& same_image_header(done, id)
    &&& if is_true_format(t) {
        &&& true_setup_error(id, bytes, start, end) is None
        &&& exists|mid: ImageData| #[trigger]
            true_prepared(mid, id, bytes, start, end) && true_decoded(done, mid)
    } else if crate::huffman::is_huffman16(t) || t == X3F_IMAGE_THUMB_HUFFMAN {
        &&& huffman_setup_error(id, bits, mapped, bytes, start, end) is None
        &&& exists|mid: ImageData| #[trigger]
            huffman_prepared(mid, id, bits, mapped, bytes, start, end) && huffman_decoded(
                done,
                mid,
                bits,
                legacy,
            )
    } else {
        &&& t == X3F_IMAGE_THUMB_PLAIN || t == X3F_IMAGE_THUMB_JPEG
        &&& t == X3F_IMAGE_THUMB_PLAIN ==> id.rows * id.row_stride <= end - start
        &&& done.data@ == bytes.subrange(start, end)
        &&& done.huffman is None
        &&& done.tru is None
        &&& done.quattro is None
    }
}

/// Loads an image by its format. After an error the image may hold part of it.
pub fn load_image(
    id: &mut ImageData,
    input: &mut Input<'_>,
    legacy: LegacyOffset,
    control: Control<'_>,
) -> (r: Result<(), Error>)
    requires
        old(input).inv(),
        old(input).guard() == control,
        old(id).unloaded(),
        old(id).rows > 0,
    ensures
        same_image_header(*final(id), *old(id)),
        ({
            let bytes = old(input).bytes();
            let start = old(input).pos();
            let end = old(input).bound();
            match r {
                Ok(_) => {
                    &&& image_loaded(*final(id), *old(id), bytes, start, end, legacy)
                    &&& start < end ==> control.may_read(false)
                },
                Err(Error::Cancelled) => control.may_read(true),
                Err(e) => image_fails(*old(id), bytes, start, end, e),
            }
        }),
{
    proof {
        input.lemma_inv();
    }
    let t: u32 = id.type_format;
    if t == X3F_IMAGE_RAW_TRUE || t == X3F_IMAGE_RAW_MERRILL || t == X3F_IMAGE_RAW_QUATTRO || t
        == X3F_IMAGE_RAW_SDQ || t == X3F_IMAGE_RAW_SDQH {
        load_true(id, input, control)
    } else if t == X3F_IMAGE_RAW_HUFFMAN_X530 || t == X3F_IMAGE_RAW_HUFFMAN_10BIT {
        load_huffman(id, input, 10, true, legacy, control)
    } else if t == X3F_IMAGE_THUMB_HUFFMAN {
        load_huffman(id, input, 8, false, legacy, control)
    } else if t == X3F_IMAGE_THUMB_PLAIN || t == X3F_IMAGE_THUMB_JPEG {
        let rest: usize = input.remaining();
        id.data = input.read_alloc(rest)?;
        if t == X3F_IMAGE_THUMB_PLAIN {
            let raster: usize = checked_size(id.rows as usize, id.row_stride as usize)?;
            if raster > id.data.len() {
                return Err(Error::InvalidData("truncated thumbnail raster"));
            }
        }
        Ok(())
    } else {
        Err(Error::InvalidData("unsupported image encoding"))
    }
}

/// How an image loads depends on its section's header and body alone.
pub proof fn lemma_header_decides(
    a: ImageData,
    b: ImageData,
    done: ImageData,
    bytes: Seq<u8>,
    start: int,
    end: int,
    legacy: LegacyOffset,
    error: Error,
)
    requires
        same_image_header(a, b),
    ensures
        image_fails(a, bytes, start, end, error) ==> image_fails(b, bytes, start, end, error),
        image_loaded(done, a, bytes, start, end, legacy) ==> image_loaded(
            done,
            b,
            bytes,
            start,
            end,
            legacy,
        ),
{
    let t = a.type_format;
    let bits = huffman_bits(t);
    let mapped = bits == 10;
    let huffman = crate::huffman::is_huffman16(t) || t == X3F_IMAGE_THUMB_HUFFMAN;
    if image_fails(a, bytes, start, end, error) {
        if is_true_format(t) {
            if true_setup_error(a, bytes, start, end) is None {
                let mid = choose|mid: ImageData| #[trigger]
                    true_prepared(mid, a, bytes, start, end) && mid.true_error() == Some(error);
                assert(true_prepared(mid, b, bytes, start, end));
            }
        } else if huffman {
            if huffman_setup_error(a, bits, mapped, bytes, start, end) is None {
                let mid = choose|mid: ImageData| #[trigger]
                    huffman_prepared(mid, a, bits, mapped, bytes, start, end)
                        && huffman_body_error(mid, bits) == Some(error);
                assert(huffman_prepared(mid, b, bits, mapped, bytes, start, end));
            }
        }
    }
    if image_loaded(done, a, bytes, start, end, legacy) {
        if is_true_format(t) {
            let mid = choose|mid: ImageData| #[trigger]
                true_prepared(mid, a, bytes, start, end) && true_decoded(done, mid);
            assert(true_prepared(mid, b, bytes, start, end));
        } else if huffman {
            let mid = choose|mid: ImageData| #[trigger]
                huffman_prepared(mid, a, bits, mapped, bytes, start, end) && huffman_decoded(
                    done,
                    mid,
                    bits,
                    legacy,
                );
            assert(huffman_prepared(mid, b, bits, mapped, bytes, start, end));
        }
    }
}

/// A TRUE table ends at its first entry of code size zero.
proof fn lemma_table_ends(bytes: Seq<u8>, at: int, end: int, n: int, i: int)
    requires
        0 <= i <= n,
        i <= 32,
        at + 2 * n + 2 <= end,
        bytes[at + 2 * n] == 0,
        forall|j: int| 0 <= j < n ==> #[trigger] bytes[at + 2 * j] != 0,
        table_end(bytes, at, end, i) < 32,
    ensures
        table_end(bytes, at, end, i) == n,
    decreases n - i,
{
    if i < n && i < 32 {
        assert(bytes[at + 2 * i] != 0);
        lemma_table_ends(bytes, at, end, n, i + 1);
    }
}

/// A TRUE-coded section as it is written.
pub ghost struct TrueSection {
    /// Whether the sensor is a Quattro one.
    pub quattro: bool,
    /// The sizes of its three planes, if so.
    pub columns: Seq<u16>,
    pub rows: Seq<u16>,
    pub seeds: Seq<u16>,
    pub table: Seq<TrueHuffmanElement>,
    /// The bytes of each coded plane, and where it starts.
    pub sizes: Seq<u32>,
    pub offsets: Seq<int>,
}

impl TrueSection {
    /// The seeds, and a number after them, stand before the code table, and the sizes
    /// of the planes before the seeds.
    pub open spec fn table_at(self, start: int) -> int {
        if self.quattro {
            start + 20
        } else {
            start + 8
        }
    }

    /// An entry of size zero ends the code table. Another number follows if the sensor
    /// is a Quattro one.
    pub open spec fn sizes_at(self, start: int) -> int {
        self.table_at(start) + 2 * self.table.len() + (if self.quattro {
            6int
        } else {
            2int
        })
    }

    /// The coded planes follow the three sizes.
    pub open spec fn data_at(self, start: int) -> int {
        self.sizes_at(start) + 12
    }

    /// Whether the section stands in `bytes[start..end]`. Each coded plane starts at
    /// the first multiple of sixteen bytes after the one before.
    pub open spec fn stands_at(self, bytes: Seq<u8>, start: int, end: int) -> bool {
        let table = self.table_at(start);
        let sizes = self.sizes_at(start);
        let offsets = self.offsets;
        &&& 0 <= start
        &&& end <= bytes.len()
        &&& self.columns.len() == 3
        &&& self.rows.len() == 3
        &&& self.seeds.len() == 3
        &&& self.sizes.len() == 3
        &&& offsets.len() == 3
        &&& self.quattro ==> forall|i: int|
            0 <= i < 3 ==> stands_at(bytes, start + 4 * i, written16(#[trigger] self.columns[i]))
        &&& self.quattro ==> forall|i: int|
            0 <= i < 3 ==> stands_at(bytes, start + 4 * i + 2, written16(#[trigger] self.rows[i]))
        &&& forall|i: int|
            0 <= i < 3 ==> stands_at(bytes, table - 8 + 2 * i, written16(#[trigger] self.seeds[i]))
        &&& forall|i: int|
            0 <= i < self.table.len() ==> {
                let entry = #[trigger] self.table[i];
                entry.code_size != 0 && bytes[table + 2 * i] == entry.code_size && bytes[table + 2
                    * i + 1] == entry.code
            }
        &&& bytes[table + 2 * self.table.len()] == 0
        &&& forall|i: int|
            0 <= i < 3 ==> stands_at(bytes, sizes + 4 * i, written32(#[trigger] self.sizes[i]))
        &&& self.data_at(start) <= end
        &&& offsets[0] == 0
        &&& offsets[1] % 16 == 0
        &&& offsets[2] % 16 == 0
        &&& self.sizes[0] <= offsets[1] < self.sizes[0] + 16
        &&& offsets[1] + self.sizes[1] <= offsets[2] < offsets[1] + self.sizes[1] + 16
    }

    /// Where its parts are read.
    proof fn lemma_body(self, bytes: Seq<u8>, start: int, end: int)
        requires
            self.stands_at(bytes, start, end),
            table_error(bytes, self.table_at(start), end) is None,
        ensures
            ({
                let body = true_body(self.quattro, bytes, start, end);
                let table = table_at(bytes, self.table_at(start), end);
                &&& body.seeds == self.table_at(start) - 8
                &&& body.table == self.table_at(start)
                &&& body.sizes == self.sizes_at(start)
                &&& body.data == self.data_at(start)
                &&& table.len() == self.table.len() + 1
                &&& forall|i: int|
                    0 <= i < self.table.len() ==> #[trigger] table[i] == self.table[i]
                &&& table[self.table.len() as int].code_size == 0
            }),
    {
        let at = self.table_at(start);
        let n = self.table.len() as int;
        assert forall|j: int| 0 <= j < n implies #[trigger] bytes[at + 2 * j] != 0 by {
            let entry = self.table[j];
        }
        lemma_table_ends(bytes, at, end, n, 0);
    }

    /// Where its planes are read.
    proof fn lemma_planes(self, bytes: Seq<u8>, start: int, end: int)
        requires
            self.stands_at(bytes, start, end),
        ensures
            ({
                let sizes = self.sizes_at(start);
                forall|i: int|
                    0 <= i < 3 ==> #[trigger] le32(bytes, sizes + 4 * i) == self.sizes[i]
                        && plane_start(bytes, sizes, i as nat) == self.offsets[i]
            }),
    {
        let sizes = self.sizes_at(start);
        let (s0, s1, s2) = (self.sizes[0], self.sizes[1], self.sizes[2]);
        assert(stands_at(bytes, sizes + 4 * 0, written32(self.sizes[0])));
        assert(stands_at(bytes, sizes + 4 * 1, written32(self.sizes[1])));
        law_numbers_are_read_back(bytes, sizes + 4 * 0, s0);
        law_numbers_are_read_back(bytes, sizes + 4 * 1, s1);
        law_numbers_are_read_back(bytes, sizes + 4 * 2, s2);
        assert(plane_start(bytes, sizes, 0) == 0);
        assert(plane_start(bytes, sizes, 1) == (s0 + 15) / 16 * 16);
        assert(plane_start(bytes, sizes, 2) == plane_start(bytes, sizes, 1) + (s1 + 15) / 16 * 16);
    }
}

/// What a TRUE-coded section that loads has in order.
proof fn lemma_no_setup_error(id: ImageData, bytes: Seq<u8>, start: int, end: int)
    requires
        true_setup_error(id, bytes, start, end) is None,
    ensures
        ({
            let quattro = spec_is_quattro_format(id.type_format);
            let body = true_body(quattro, bytes, start, end);
            &&& quattro ==> quattro_error(id.rows, id.columns, bytes, start, end) is None
            &&& table_error(bytes, body.table, end) is None
            &&& true_tree_error(table_at(bytes, body.table, end)) is None
        }),
{
}

/// A TRUE-coded section is read back as it is written: where a coded plane holds the
/// differences of a raster, each to the sample two columns before, two rows above, or
/// the seed, that raster stands in the channel of the plane, or in the top layer if the
/// sensor has one with twice the rows of the others.
pub proof fn law_true_sections_are_read_back(
    done: ImageData,
    id: ImageData,
    bytes: Seq<u8>,
    start: int,
    end: int,
    legacy: LegacyOffset,
    section: TrueSection,
    color: int,
    raster: spec_fn(int, int) -> int,
    starts: spec_fn(int) -> int,
    row: int,
    column: int,
)
    requires
        is_true_format(id.type_format),
        image_loaded(done, id, bytes, start, end, legacy),
        section.stands_at(bytes, start, end),
        section.quattro <==> (id.type_format == X3F_IMAGE_RAW_QUATTRO || id.type_format
            == X3F_IMAGE_RAW_SDQ || id.type_format == X3F_IMAGE_RAW_SDQH),
        0 <= color < 3,
        ({
            let (rows, columns) = if section.quattro {
                (section.rows[color] as int, section.columns[color] as int)
            } else {
                (id.rows as int, id.columns as int)
            };
            let layout = section.quattro && section.rows[0] == id.rows / 2;
            let width = if layout {
                columns
            } else {
                id.columns as int
            };
            let from = section.data_at(start) + section.offsets[color];
            let plane = bytes.subrange(from, from + section.sizes[color]);
            let seed = section.seeds[color] as int;
            &&& 0 <= row < rows
            &&& 0 <= column < width
            &&& codes_raster(
                done.tru->0.tree.nodes@,
                plane,
                seed,
                rows,
                columns,
                raster,
                starts,
            )
        }),
    ensures
        ({
            let layout = section.quattro && section.rows[0] == id.rows / 2;
            let width = if layout {
                section.columns[color] as int
            } else {
                id.columns as int
            };
            let table = done.tru->0.table@;
            &&& if layout && color == 2 {
                done.quattro->0.top16.data@[row * width + column] == raster(row, column) as u16
            } else {
                done.tru->0.x3rgb16.data@[3 * (row * width + column) + color] == raster(
                    row,
                    column,
                ) as u16
            }
            &&& table.len() == section.table.len() + 1
            &&& forall|i: int|
                0 <= i < section.table.len() ==> #[trigger] table[i] == section.table[i]
            &&& table[section.table.len() as int].code_size == 0
            &&& true_tree_error(table) is None
            &&& code_tree(done.tru->0.tree.nodes@, true_codes(table, table.len()))
        }),
{
    let mid = choose|mid: ImageData| #[trigger]
        true_prepared(mid, id, bytes, start, end) && true_decoded(done, mid);
    let quattro = section.quattro;
    let (rows, columns) = if quattro {
        (section.rows[color] as int, section.columns[color] as int)
    } else {
        (id.rows as int, id.columns as int)
    };
    let layout = quattro && section.rows[0] == id.rows / 2;
    let width = if layout {
        columns
    } else {
        id.columns as int
    };
    lemma_no_setup_error(id, bytes, start, end);
    lemma_section_prepared(mid, id, bytes, start, end, section, color);
    assert(done.tru->0.tree == mid.tru->0.tree && done.tru->0.table == mid.tru->0.table);
    lemma_planes_in_channels(mid, color, raster, starts, row, column);
    assert(row * (width * 3) == 3 * (row * width)) by (nonlinear_arith);
    assert(row * (width * 1) == row * width) by (nonlinear_arith);
}

/// What the parts of a written TRUE-coded section are read as.
proof fn lemma_section_prepared(
    mid: ImageData,
    id: ImageData,
    bytes: Seq<u8>,
    start: int,
    end: int,
    section: TrueSection,
    color: int,
)
    requires
        true_setup_error(id, bytes, start, end) is None,
        true_prepared(mid, id, bytes, start, end),
        mid.plane_setup_error(color) is None,
        section.stands_at(bytes, start, end),
        section.quattro == spec_is_quattro_format(id.type_format),
        0 <= color < 3,
    ensures
        ({
            let quattro = section.quattro;
            let layout = quattro && section.rows[0] == id.rows / 2;
            let tru = mid.tru->0;
            let q = mid.quattro->0;
            let from = section.data_at(start) + section.offsets[color];
            &&& tru.table@.len() == section.table.len() + 1
            &&& forall|i: int|
                0 <= i < section.table.len() ==> #[trigger] tru.table@[i] == section.table[i]
            &&& tru.table@[section.table.len() as int].code_size == 0
            &&& tru.seed[color] == section.seeds[color]
            &&& mid.rasters_hold()
            &&& mid.data@.subrange(
                tru.plane_offset[color] as int,
                tru.plane_offset[color] + tru.plane_size[color],
            ) == bytes.subrange(from, from + section.sizes[color])
            &&& quattro ==> q.plane[color].rows == section.rows[color] && q.plane[color].columns
                == section.columns[color] && q.quattro_layout == layout
            &&& if layout && color == 2 {
                &&& q.top16.rows == section.rows[2]
                &&& q.top16.columns == section.columns[2]
                &&& q.top16.channels == 1
                &&& q.top16.row_stride == section.columns[2] * 1
            } else if layout {
                &&& tru.x3rgb16.rows == section.rows[color]
                &&& tru.x3rgb16.columns == section.columns[color]
                &&& tru.x3rgb16.channels == 3
                &&& tru.x3rgb16.row_stride == section.columns[color] * 3
            } else {
                &&& tru.x3rgb16.rows == id.rows
                &&& tru.x3rgb16.columns == id.columns
                &&& tru.x3rgb16.channels == 3
                &&& tru.x3rgb16.row_stride == id.columns * 3
                &&& quattro ==> section.rows[color] == id.rows
            }
        }),
{
    let tru = mid.tru->0;
    lemma_no_setup_error(id, bytes, start, end);
    section.lemma_body(bytes, start, end);
    section.lemma_planes(bytes, start, end);
    let seed = section.seeds[color];
    law_short_numbers_are_read_back(bytes, section.table_at(start) - 8 + 2 * color, seed);
    assert(tru.seed[color] == seed);
    let sizes = section.sizes_at(start);
    assert(le32(bytes, sizes + 4 * color) == section.sizes[color]);
    assert(tru.plane_size@[color] == section.sizes[color]);
    assert(tru.plane_offset[color] == section.offsets[color]);
    let (from, size) = (section.offsets[color], section.sizes[color] as int);
    let data = section.data_at(start);
    assert(mid.data@.subrange(from, from + size) =~= bytes.subrange(
        data + from,
        data + from + size,
    ));
    if section.quattro {
        lemma_quattro_sizes(mid.quattro->0, id, bytes, start, end, section);
    }
}

/// What the sizes of the planes of a written section are read as.
proof fn lemma_quattro_sizes(
    q: Quattro,
    id: ImageData,
    bytes: Seq<u8>,
    start: int,
    end: int,
    section: TrueSection,
)
    requires
        section.stands_at(bytes, start, end),
        section.quattro,
        quattro_is(q, id.rows, bytes, start),
        quattro_error(id.rows, id.columns, bytes, start, end) is None,
    ensures
        forall|i: int|
            0 <= i < 3 ==> (#[trigger] q.plane[i]).rows == section.rows[i] && q.plane[i].columns
                == section.columns[i],
        q.quattro_layout == (section.rows[0] == id.rows / 2),
        q.quattro_layout == quattro_layout(id.rows, bytes, start),
        q.plane[0].rows == q.plane[1].rows,
        q.plane[0].columns == q.plane[1].columns,
        !q.quattro_layout ==> q.plane[0].rows == id.rows && q.plane[2].rows == id.rows,
{
    assert forall|i: int| 0 <= i < 3 implies (#[trigger] q.plane[i]).rows == section.rows[i]
        && q.plane[i].columns == section.columns[i] by {
        let (r, c) = (section.rows[i], section.columns[i]);
        law_short_numbers_are_read_back(bytes, start + 4 * i, c);
        law_short_numbers_are_read_back(bytes, start + 4 * i + 2, r);
    }
    let (p0, p1, p2) = (q.plane[0], q.plane[1], q.plane[2]);
}

/// A nonzero entry of a table is among its codes.
proof fn lemma_huffman_entry(table: Seq<u32>, mapping: Seq<u16>, n: nat, i: int) -> (j: int)
    requires
        0 <= i < n <= table.len(),
        table[i] != 0,
    ensures
        0 <= j < huffman_codes(table, mapping, n).len(),
        huffman_codes(table, mapping, n)[j] == (
            table[i] / 0x0800_0000,
            table[i] % 0x0800_0000,
            if mapping.len() == table.len() {
                mapping[i] as u32
            } else {
                i as u32
            },
        ),
    decreases n,
{
    if i == n - 1 {
        huffman_codes(table, mapping, n).len() - 1
    } else {
        lemma_huffman_entry(table, mapping, (n - 1) as nat, i)
    }
}

/// An entry of the table of an older camera is the length of a code, in its five
/// highest bits, and the code. It is read as the difference that the mapping has in the
/// same place or, without a mapping, as its place.
pub proof fn law_table_entries_are_codes(
    nodes: Seq<HuffNode>,
    table: Seq<u32>,
    mapping: Seq<u16>,
    i: int,
    length: int,
    code: int,
    bytes: Seq<u8>,
    pos: int,
)
    requires
        tree_error(huffman_codes(table, mapping, table.len())) is None,
        code_tree(nodes, huffman_codes(table, mapping, table.len())),
        mapping.len() == table.len() || mapping.len() == 0,
        0 <= i < table.len() < 0x1_0000,
        table[i] == length * 0x0800_0000 + code,
        table[i] != 0,
        0 <= length < 32,
        0 <= code < 0x0800_0000,
        0 <= pos,
        pos + length <= 8 * bytes.len(),
        bits_value(bytes, pos, length as nat) == code,
    ensures
        spec_read_leaf(nodes, bytes, pos) == Ok::<(u32, int), Error>(
            (
                if mapping.len() == 0 {
                    i as u32
                } else {
                    mapping[i] as u32
                },
                pos + length,
            ),
        ),
{
    let j = lemma_huffman_entry(table, mapping, table.len(), i);
    law_codes_are_numbers(nodes, huffman_codes(table, mapping, table.len()), j, bytes, pos);
}

/// A Huffman-coded section is read back as it is written: for a raw image, 1024
/// differences of 16 bits; a table of as many codes, or of 256 for a thumbnail; the
/// coded rows; and at its very end, for each row, where it starts among them. Where the
/// codes of a row hold, up to a pixel, the differences of each sample to the one of the
/// same colour before it, or to the given starting value, the samples of the pixel stand
/// in its place, the negative ones as zero.
pub proof fn law_huffman_sections_are_read_back(
    done: ImageData,
    id: ImageData,
    bytes: Seq<u8>,
    start: int,
    end: int,
    legacy: LegacyOffset,
    row: int,
    from: u32,
    to: u32,
    samples: spec_fn(int, int) -> int,
    leaves: spec_fn(int, int) -> u32,
    starts: spec_fn(int) -> int,
    column: int,
    color: int,
)
    requires
        image_loaded(done, id, bytes, start, end, legacy),
        id.type_format == X3F_IMAGE_RAW_HUFFMAN_X530 || id.type_format
            == X3F_IMAGE_RAW_HUFFMAN_10BIT || id.type_format == X3F_IMAGE_THUMB_HUFFMAN,
        id.row_stride == 0,
        !legacy.auto_legacy_offset,
        0 <= start,
        end <= bytes.len(),
        0 <= row < id.rows,
        0 <= column < id.columns,
        0 <= color < 3,
        starts(0) == 0,
        ({
            let data = start + (if id.type_format == X3F_IMAGE_THUMB_HUFFMAN {
                4 * 256int
            } else {
                2 * 1024 + 4 * 1024int
            });
            let data_end = end - 4 * id.rows;
            let line = bytes.subrange(
                data + from,
                if row + 1 < id.rows {
                    data + to
                } else {
                    data_end
                },
            );
            &&& stands_at(bytes, data_end + 4 * row, written32(from))
            &&& row + 1 < id.rows ==> stands_at(bytes, data_end + 4 * row + 4, written32(to))
            &&& codes_row(
                done.huffman->0.tree.nodes@,
                line,
                legacy.legacy_offset as int,
                samples,
                leaves,
                starts,
                column,
            )
        }),
    ensures
        ({
            let i = 3 * (row * id.columns + column) + color;
            let v = if samples(column, color) < 0 {
                0
            } else {
                samples(column, color)
            };
            if id.type_format == X3F_IMAGE_THUMB_HUFFMAN {
                done.huffman->0.rgb8.data@[i] == v % 0x100
            } else {
                done.huffman->0.x3rgb16.data@[i] == v
            }
        }),
{
    let t = id.type_format;
    let bits = huffman_bits(t);
    let mapped = bits == 10;
    let mid = choose|mid: ImageData| #[trigger]
        huffman_prepared(mid, id, bits, mapped, bytes, start, end) && huffman_decoded(
            done,
            mid,
            bits,
            legacy,
        );
    let n: int = if bits == 10 {
        1024
    } else {
        256
    };
    let body = huff_body(id, n, mapped, start, end);
    let h = mid.huffman->0;
    law_numbers_are_read_back(bytes, body.data_end + 4 * row, from);
    assert(h.row_offsets@[row] == from);
    if row + 1 < id.rows {
        law_numbers_are_read_back(bytes, body.data_end + 4 * (row + 1), to);
        assert(h.row_offsets@[row + 1] == to);
    }
    law_decodable_rows_lie_in_the_data(mid, row);
    let stop = if row + 1 < id.rows {
        to as int
    } else {
        mid.data@.len() as int
    };
    assert(mid.data@.subrange(from as int, stop) =~= bytes.subrange(
        body.data + from,
        body.data + stop,
    ));
    assert(done.huffman->0.tree == h.tree);
    lemma_coded_row(
        done.huffman->0,
        h,
        mid.data@,
        mid.rows,
        mid.columns,
        t,
        legacy.legacy_offset,
        row,
        samples,
        leaves,
        starts,
        column,
        color,
    );
    let i = 3 * (row * id.columns + column) + color;
    assert(i < 3 * (id.rows * id.columns)) by (nonlinear_arith)
        requires
            i == 3 * (row * id.columns + column) + color,
            0 <= row < id.rows,
            0 <= column < id.columns,
            0 <= color < 3,
    ;
    assert(id.columns * id.rows * 3 == 3 * (id.rows * id.columns)) by (nonlinear_arith);
    assert(id.rows * (id.columns * 3) == 3 * (id.rows * id.columns)) by (nonlinear_arith);
}

/// A packed section is read back as it is written: for a raw image, 1024 differences of
/// 16 bits, and then the packed rows. Where the words of a row hold, up to a pixel, the
/// places of the differences of each sample to the one of the same colour before it (for
/// a thumbnail, the differences themselves), the samples of the pixel stand in its place,
/// those that are not positive as zero.
pub proof fn law_packed_sections_are_read_back(
    done: ImageData,
    id: ImageData,
    bytes: Seq<u8>,
    start: int,
    end: int,
    legacy: LegacyOffset,
    row: int,
    mapping: Seq<u16>,
    fields: spec_fn(int, int) -> int,
    rest: spec_fn(int) -> int,
    samples: spec_fn(int, int) -> int,
    column: int,
    color: int,
)
    requires
        image_loaded(done, id, bytes, start, end, legacy),
        id.type_format == X3F_IMAGE_RAW_HUFFMAN_X530 || id.type_format
            == X3F_IMAGE_RAW_HUFFMAN_10BIT || id.type_format == X3F_IMAGE_THUMB_HUFFMAN,
        0 < id.row_stride,
        0 <= start,
        end <= bytes.len(),
        0 <= row < id.rows,
        0 <= column < id.columns,
        0 <= color < 3,
        ({
            let thumb = id.type_format == X3F_IMAGE_THUMB_HUFFMAN;
            let data = if thumb {
                start
            } else {
                start + 2 * 1024
            };
            let bits: nat = if thumb {
                8
            } else {
                10
            };
            &&& mapping.len() == (if thumb {
                0int
            } else {
                1024int
            })
            &&& forall|i: int|
                0 <= i < mapping.len() ==> stands_at(
                    bytes,
                    start + 2 * i,
                    written16(#[trigger] mapping[i]),
                )
            &&& packs_row(
                bytes,
                data + row * id.row_stride,
                pow2(bits) as int,
                mapping,
                fields,
                rest,
                samples,
                column,
            )
        }),
    ensures
        ({
            let i = 3 * (row * id.columns + column) + color;
            let v = samples(column, color);
            if id.type_format == X3F_IMAGE_THUMB_HUFFMAN {
                done.huffman->0.rgb8.data@[i] == (if v % 0x100 < 0x80 {
                    v % 0x100
                } else {
                    0
                })
            } else {
                done.huffman->0.x3rgb16.data@[i] == (if v < 0x8000 {
                    v
                } else {
                    0
                })
            }
        }),
{
    let t = id.type_format;
    let bits = huffman_bits(t);
    let mapped = bits == 10;
    let mid = choose|mid: ImageData| #[trigger]
        huffman_prepared(mid, id, bits, mapped, bytes, start, end) && huffman_decoded(
            done,
            mid,
            bits,
            legacy,
        );
    let n: int = if bits == 10 {
        1024
    } else {
        256
    };
    let body = huff_body(id, n, mapped, start, end);
    let h = mid.huffman->0;
    assert(h.mapping@ =~= mapping) by {
        assert forall|i: int| 0 <= i < mapping.len() implies #[trigger] h.mapping@[i]
            == mapping[i] by {
            law_short_numbers_are_read_back(bytes, start + 2 * i, mapping[i]);
        }
    }
    let raw = id.row_stride;
    let stride = raw as i32;
    assert((raw as i32) > 0 ==> raw as i32 == raw) by (bit_vector);
    assert(mid.simple_error(bits as i32, stride) is None);
    lemma2_to64();
    let at = row * id.row_stride;
    assert(0 <= at && at + id.row_stride <= stride * id.rows) by (nonlinear_arith)
        requires
            at == row * id.row_stride,
            stride == id.row_stride,
            0 <= row < id.rows,
    ;
    lemma_packed_part(
        bytes,
        mid.data@,
        body.data,
        at,
        pow2(bits as nat) as int,
        mapping,
        fields,
        rest,
        samples,
        column,
    );
    lemma_packed_row(
        done.huffman->0,
        mid,
        bits as i32,
        stride,
        row,
        fields,
        rest,
        samples,
        column,
        color,
    );
    let i = 3 * (row * id.columns + column) + color;
    assert(i < 3 * (id.rows * id.columns)) by (nonlinear_arith)
        requires
            i == 3 * (row * id.columns + column) + color,
            0 <= row < id.rows,
            0 <= column < id.columns,
            0 <= color < 3,
    ;
    assert(id.columns * id.rows * 3 == 3 * (id.rows * id.columns)) by (nonlinear_arith);
    assert(id.rows * (id.columns * 3) == 3 * (id.rows * id.columns)) by (nonlinear_arith);
}

/// A row is packed in a part of the bytes as it is in them.
proof fn lemma_packed_part(
    bytes: Seq<u8>,
    part: Seq<u8>,
    from: int,
    at: int,
    m: int,
    mapping: Seq<u16>,
    fields: spec_fn(int, int) -> int,
    rest: spec_fn(int) -> int,
    samples: spec_fn(int, int) -> int,
    column: int,
)
    requires
        0 <= from,
        0 <= at,
        from + part.len() <= bytes.len(),
        part == bytes.subrange(from, from + part.len()),
        at + 4 * column + 4 <= part.len(),
        packs_row(bytes, from + at, m, mapping, fields, rest, samples, column),
    ensures
        packs_row(part, at, m, mapping, fields, rest, samples, column),
{
    assert forall|c: int| #![trigger rest(c)] 0 <= c <= column implies word_at(part, at + 4 * c)
        == fields(c, 0) + m * (fields(c, 1) + m * (fields(c, 2) + m * rest(c))) by {
        let r = rest(c);
        assert(word_at(part, at + 4 * c) == word_at(bytes, from + at + 4 * c));
    }
}

/// A plain or JPEG thumbnail is the bytes of its section.
pub proof fn law_plain_thumbnails_are_kept(
    done: ImageData,
    id: ImageData,
    bytes: Seq<u8>,
    start: int,
    end: int,
    legacy: LegacyOffset,
    i: int,
)
    requires
        image_loaded(done, id, bytes, start, end, legacy),
        id.type_format == X3F_IMAGE_THUMB_PLAIN || id.type_format == X3F_IMAGE_THUMB_JPEG,
        0 <= start <= end <= bytes.len(),
        0 <= i < end - start,
    ensures
        done.data@.len() == end - start,
        done.data@[i] == bytes[start + i],
{
}

/// A TRUE-coded section that is written as it should be has nothing wrong before its planes
/// are decoded: if its code table is one, no plane is empty, all of them lie in the section,
/// the sizes of the planes of a Quattro sensor match, and its rasters are not too large.
pub proof fn law_written_true_sections_are_set_up(
    id: ImageData,
    bytes: Seq<u8>,
    start: int,
    end: int,
    section: TrueSection,
)
    requires
        section.stands_at(bytes, start, end),
        section.quattro <==> (id.type_format == X3F_IMAGE_RAW_QUATTRO || id.type_format
            == X3F_IMAGE_RAW_SDQ || id.type_format == X3F_IMAGE_RAW_SDQH),
        section.table.len() < 32,
        true_tree_error(table_at(bytes, section.table_at(start), end)) is None,
        end - section.data_at(start) <= MAX_ALLOCATION,
        forall|i: int|
            0 <= i < 3 ==> (#[trigger] section.sizes[i]) > 0 && section.data_at(start)
                + section.offsets[i] + section.sizes[i] <= end,
        !section.quattro ==> {
            &&& 0 < id.rows
            &&& 0 < id.columns
            &&& 3 * id.columns <= u32::MAX
            &&& 6 * (id.rows * id.columns) <= MAX_ALLOCATION
        },
        section.quattro ==> {
            let (r, c) = (section.rows, section.columns);
            &&& r[0] == r[1]
            &&& c[0] == c[1]
            &&& 0 < r[0]
            &&& 0 < c[0]
            &&& if r[0] == id.rows / 2 {
                &&& 2 * r[0] <= r[2]
                &&& 2 * c[0] <= c[2]
                &&& 6 * (r[0] * c[0]) <= MAX_ALLOCATION
                &&& 2 * (r[2] * c[2]) <= MAX_ALLOCATION
            } else {
                &&& r[0] == id.rows
                &&& r[2] == id.rows
                &&& 0 < id.columns <= c[0]
                &&& id.columns <= c[2]
                &&& 6 * (id.rows * id.columns) <= MAX_ALLOCATION
            }
        },
    ensures
        true_setup_error(id, bytes, start, end) is None,
{
    let quattro = spec_is_quattro_format(id.type_format);
    let at = section.table_at(start);
    let n = section.table.len() as int;
    assert forall|j: int| 0 <= j < n implies #[trigger] bytes[at + 2 * j] != 0 by {
        let entry = section.table[j];
    }
    lemma_table_stops(bytes, at, end, n, 0);
    section.lemma_body(bytes, start, end);
    section.lemma_planes(bytes, start, end);
    let sizes = section.sizes_at(start);
    let data = section.data_at(start);
    lemma_planes_fit(section, bytes, start, end, 3);
    if quattro {
        let (c0, c1, c2) = (section.columns[0], section.columns[1], section.columns[2]);
        let (r0, r1, r2) = (section.rows[0], section.rows[1], section.rows[2]);
        law_short_numbers_are_read_back(bytes, start + 4 * 0, c0);
        law_short_numbers_are_read_back(bytes, start + 4 * 1, c1);
        law_short_numbers_are_read_back(bytes, start + 4 * 2, c2);
        law_short_numbers_are_read_back(bytes, start + 4 * 0 + 2, r0);
        law_short_numbers_are_read_back(bytes, start + 4 * 1 + 2, r1);
        law_short_numbers_are_read_back(bytes, start + 4 * 2 + 2, r2);
        assert(quattro_error(id.rows, id.columns, bytes, start, end) is None);
        lemma_raster_fits(r0 as u32, c0 as u32, 3);
        lemma_raster_fits(r2 as u32, c2 as u32, 1);
    }
    lemma_raster_fits(id.rows, id.columns, 3);
}

proof fn lemma_raster_fits(rows: u32, columns: u32, channels: u32)
    ensures
        0 < rows && 0 < columns && columns * channels <= u32::MAX && 2 * channels * (rows * columns)
            <= MAX_ALLOCATION ==> allocate_error(rows, columns, channels) is None,
{
    assert(rows * (columns * channels) * 2 == 2 * channels * (rows * columns)) by (nonlinear_arith);
}

proof fn lemma_table_stops(bytes: Seq<u8>, at: int, end: int, n: int, i: int)
    requires
        0 <= i <= n < 32,
        at + 2 * n + 2 <= end,
        bytes[at + 2 * n] == 0,
        forall|j: int| 0 <= j < n ==> #[trigger] bytes[at + 2 * j] != 0,
    ensures
        table_end(bytes, at, end, i) == n,
    decreases n - i,
{
    if i < n {
        assert(bytes[at + 2 * i] != 0);
        lemma_table_stops(bytes, at, end, n, i + 1);
    }
}

proof fn lemma_planes_fit(section: TrueSection, bytes: Seq<u8>, start: int, end: int, k: nat)
    requires
        section.stands_at(bytes, start, end),
        k <= 3,
        forall|i: int|
            0 <= i < 3 ==> (#[trigger] section.sizes[i]) > 0 && section.data_at(start)
                + section.offsets[i] + section.sizes[i] <= end,
    ensures
        planes_error(bytes, section.sizes_at(start), end - section.data_at(start), k) is None,
    decreases k,
{
    if k > 0 {
        lemma_planes_fit(section, bytes, start, end, (k - 1) as nat);
        section.lemma_planes(bytes, start, end);
        let sizes = section.sizes_at(start);
        assert(le32(bytes, sizes + 4 * (k - 1)) == section.sizes[k - 1]);
    }
}

/// A Huffman-coded or packed section has nothing wrong before it is decoded if it has room
/// for its tables and, where it is Huffman-coded, for where its rows start, if its codes can
/// be told apart, and if nothing of it is too large.
pub proof fn law_written_huffman_sections_are_set_up(
    id: ImageData,
    bytes: Seq<u8>,
    start: int,
    end: int,
)
    requires
        id.type_format == X3F_IMAGE_RAW_HUFFMAN_X530 || id.type_format
            == X3F_IMAGE_RAW_HUFFMAN_10BIT || id.type_format == X3F_IMAGE_THUMB_HUFFMAN,
        id.rows > 0,
        id.columns > 0,
        3 * id.columns <= u32::MAX,
        6 * (id.rows * id.columns) <= MAX_ALLOCATION,
        end - start <= MAX_ALLOCATION,
        4 * id.rows <= MAX_ALLOCATION,
        ({
            let thumb = id.type_format == X3F_IMAGE_THUMB_HUFFMAN;
            let tables: int = if thumb {
                0
            } else {
                2 * 1024int
            };
            let codes: int = if thumb {
                4 * 256int
            } else {
                4 * 1024int
            };
            let n: int = codes / 4;
            &&& id.row_stride == 0 ==> {
                &&& start + tables + codes + 4 * id.rows <= end
                &&& tree_error(
                    huffman_codes(
                        words_at(bytes, start + tables, n),
                        mapping_at(bytes, n, !thumb, start),
                        n as nat,
                    ),
                ) is None
            }
            &&& id.row_stride != 0 ==> start + tables <= end
        }),
    ensures
        huffman_setup_error(
            id,
            if id.type_format == X3F_IMAGE_THUMB_HUFFMAN {
                8
            } else {
                10
            },
            id.type_format != X3F_IMAGE_THUMB_HUFFMAN,
            bytes,
            start,
            end,
        ) is None,
{
    lemma_raster_fits(id.rows, id.columns, 3);
    assert(id.columns * id.rows * 3 == 3 * (id.rows * id.columns)) by (nonlinear_arith);
    assert(id.columns * id.rows == id.rows * id.columns) by (nonlinear_arith);
    assert(0 <= id.rows * id.columns) by (nonlinear_arith);
}

} // verus!
