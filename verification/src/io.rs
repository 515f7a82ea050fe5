//! The container: its header and its directory of sections.

use crate::camf::Camf;
use crate::control::{Control, Error};
use crate::parse::{
    checked_size, law_numbers_are_read_back, le32, stands_at, written32, Input, MAX_ALLOCATION,
};
use crate::properties::PropertyList;
use crate::types::{
    HuffTree, ImageData, X3F_IMAGE_RAW_HUFFMAN_10BIT, X3F_IMAGE_RAW_HUFFMAN_X530,
    X3F_IMAGE_RAW_MERRILL, X3F_IMAGE_RAW_QUATTRO, X3F_IMAGE_RAW_SDQ, X3F_IMAGE_RAW_SDQH,
    X3F_IMAGE_RAW_TRUE, X3F_IMAGE_THUMB_HUFFMAN, X3F_IMAGE_THUMB_JPEG, X3F_IMAGE_THUMB_PLAIN,
};
use vstd::prelude::*;

verus! {

/// The signature of a container.
pub const X3F_FOVB: u32 = 0x6256_4f46;
/// The signature of its directory.
pub const X3F_SECD: u32 = 0x6443_4553;
/// The signature of a property section.
pub const X3F_SECP: u32 = 0x7043_4553;
/// The signature of an image section.
pub const X3F_SECI: u32 = 0x6943_4553;
/// The signature of a metadata section.
pub const X3F_SECC: u32 = 0x6343_4553;

pub const X3F_VERSION_2_1: u32 = 0x2_0001;
pub const X3F_VERSION_2_3: u32 = 0x2_0003;
pub const X3F_VERSION_3_0: u32 = 0x3_0000;
pub const X3F_VERSION_4_0: u32 = 0x4_0000;

pub const SIZE_UNIQUE_IDENTIFIER: usize = 16;
pub const SIZE_WHITE_BALANCE: usize = 32;
pub const SIZE_COLOR_MODE: usize = 32;
pub const NUM_EXT_DATA_2_1: usize = 32;
pub const NUM_EXT_DATA_3_0: usize = 64;

/// What one directory entry counts against the allocation limit.
pub const DIRECTORY_ENTRY_SIZE: usize = 152;

/// The container's header. A field that its version lacks is zero or empty.
#[derive(Debug)]
pub struct Header {
    pub identifier: u32,
    pub version: u32,
    pub unique_identifier: Vec<u8>,
    pub mark_bits: u32,
    pub columns: u32,
    pub rows: u32,
    pub rotation: u32,
    pub white_balance: Vec<u8>,
    pub color_mode: Vec<u8>,
    pub extended_types: Vec<u8>,
    /// Single-precision numbers by their bits.
    pub extended_data: Vec<u32>,
}

/// Where a section lies in the container.
#[derive(Clone, Copy, Debug, PartialEq, Eq, Structural)]
pub struct Extent {
    pub offset: u32,
    pub size: u32,
}

/// What a section holds.
#[derive(Debug)]
pub enum Subsection {
    PropertyList(PropertyList),
    Image(ImageData),
    Camf(Camf),
    Other,
}

/// A section: where it lies, and its header.
#[derive(Debug)]
pub struct DirectoryEntry {
    pub input: Extent,
    pub output: Extent,
    pub type_: u32,
    pub identifier: u32,
    pub version: u32,
    pub data: Subsection,
}

/// A parsed container, with the bytes that its sections are loaded from.
#[derive(Debug)]
pub struct X3f<'a> {
    pub input: &'a [u8],
    pub header: Header,
    pub directory_identifier: u32,
    pub directory_version: u32,
    pub directory: Vec<DirectoryEntry>,
}

impl DirectoryEntry {
    /// A section's kind follows from its signature, an image has pixels, and the
    /// entries of a loaded metadata section are well-formed.
    pub open spec fn inv(self) -> bool {
        match self.data {
            Subsection::PropertyList(_) => self.identifier == X3F_SECP,
            Subsection::Image(id) => self.identifier == X3F_SECI && id.rows > 0 && id.columns > 0,
            Subsection::Camf(camf) => self.identifier == X3F_SECC && forall|i: int|
                0 <= i < camf.entries@.len() ==> (#[trigger] camf.entries@[i]).inv(),
            Subsection::Other => self.identifier != X3F_SECP && self.identifier != X3F_SECI
                && self.identifier != X3F_SECC,
        }
    }
}

impl Header {
    /// The header holds what its version has.
    pub open spec fn inv(self) -> bool {
        &&& self.unique_identifier@.len() == 16
        &&& X3F_VERSION_2_1 <= self.version < X3F_VERSION_4_0 ==> {
            &&& self.extended_types@.len() == extended_count(self.version)
            &&& self.extended_data@.len() == extended_count(self.version)
        }
    }
}

impl<'a> X3f<'a> {
    /// The header and every section are well-formed.
    pub open spec fn inv(self) -> bool {
        &&& self.header.inv()
        &&& forall|i: int|
            0 <= i < self.directory@.len() ==> (#[trigger] self.directory@[i]).inv()
    }
}

/// The number of extended settings in a header.
pub open spec fn extended_count(version: u32) -> int {
    if version >= X3F_VERSION_3_0 {
        NUM_EXT_DATA_3_0 as int
    } else {
        NUM_EXT_DATA_2_1 as int
    }
}

/// Where the extended settings start in a header.
pub open spec fn extended_start(version: u32) -> int {
    if version >= X3F_VERSION_2_3 {
        104
    } else {
        72
    }
}

/// The size of a header.
pub open spec fn header_size(version: u32) -> int {
    if version >= X3F_VERSION_4_0 {
        24
    } else if version < X3F_VERSION_2_1 {
        40
    } else {
        extended_start(version) + 5 * extended_count(version)
    }
}

/// Whether there is a NUL among the bytes from `from` to `to`.
pub open spec fn has_nul(bytes: Seq<u8>, from: int, to: int) -> bool {
    exists|i: int| from <= i < to && #[trigger] bytes[i] == 0
}

/// What is wrong with a container's header.
pub open spec fn header_error(bytes: Seq<u8>) -> Option<Error> {
    let len = bytes.len();
    let version = le32(bytes, 4);
    let truncated = Some(Error::InvalidData("truncated input"));
    if len < 4 {
        truncated
    } else if le32(bytes, 0) != X3F_FOVB {
        Some(Error::InvalidData("invalid X3F signature"))
    } else if len < 24 {
        truncated
    } else if version >= X3F_VERSION_4_0 {
        None
    } else if len < 40 {
        truncated
    } else if version < X3F_VERSION_2_1 {
        None
    } else if len < 72 {
        truncated
    } else if !has_nul(bytes, 40, 72) {
        Some(Error::InvalidData("unterminated white balance"))
    } else if version >= X3F_VERSION_2_3 && len < 104 {
        truncated
    } else if version >= X3F_VERSION_2_3 && !has_nul(bytes, 72, 104) {
        Some(Error::InvalidData("unterminated color mode"))
    } else if len < header_size(version) {
        truncated
    } else {
        None
    }
}

/// Whether `h` is the header that the container starts with.
pub open spec fn header_is(h: Header, bytes: Seq<u8>) -> bool {
    let v = h.version;
    let n = extended_count(v);
    let ext = extended_start(v);
    &&& h.identifier == le32(bytes, 0)
    &&& v == le32(bytes, 4)
    &&& h.unique_identifier@ == bytes.subrange(8, 24)
    &&& if v >= X3F_VERSION_4_0 {
        h.mark_bits == 0 && h.columns == 0 && h.rows == 0 && h.rotation == 0
    } else {
        &&& h.mark_bits == le32(bytes, 24)
        &&& h.columns == le32(bytes, 28)
        &&& h.rows == le32(bytes, 32)
        &&& h.rotation == le32(bytes, 36)
    }
    &&& if X3F_VERSION_2_1 <= v < X3F_VERSION_4_0 {
        &&& h.white_balance@ == bytes.subrange(40, 72)
        &&& h.color_mode@ == (if v >= X3F_VERSION_2_3 {
            bytes.subrange(72, 104)
        } else {
            Seq::empty()
        })
        &&& h.extended_types@ == bytes.subrange(ext, ext + n)
        &&& h.extended_data@.len() == n
        &&& forall|i: int|
            0 <= i < n ==> #[trigger] h.extended_data@[i] == le32(bytes, ext + n + 4 * i)
    } else {
        &&& h.white_balance@.len() == 0
        &&& h.color_mode@.len() == 0
        &&& h.extended_types@.len() == 0
        &&& h.extended_data@.len() == 0
    }
}

/// Whether a string of the header ends within its field.
fn contains_nul(field: &Vec<u8>) -> (r: bool)
    ensures
        r == has_nul(field@, 0, field@.len() as int),
{
    let mut i: usize = 0;
    while i < field.len()
        invariant
            i <= field@.len(),
            forall|k: int| 0 <= k < i ==> #[trigger] field@[k] != 0,
        decreases field@.len() - i,
    {
        if field[i] == 0 {
            return true;
        }
        i = i + 1;
    }
    false
}

/// A NUL in a field is a NUL in the container.
proof fn lemma_field_nul(bytes: Seq<u8>, from: int, to: int)
    requires
        0 <= from <= to <= bytes.len(),
    ensures
        has_nul(bytes.subrange(from, to), 0, to - from) == has_nul(bytes, from, to),
{
    let field = bytes.subrange(from, to);
    if has_nul(field, 0, to - from) {
        let i = choose|i: int| 0 <= i < to - from && #[trigger] field[i] == 0;
        assert(bytes[from + i] == 0);
    }
    if has_nul(bytes, from, to) {
        let i = choose|i: int| from <= i < to && #[trigger] bytes[i] == 0;
        assert(field[i - from] == 0);
    }
}

/// Reads the extended settings.
fn read_extended(input: &mut Input<'_>, n: usize) -> (r: Result<(Vec<u8>, Vec<u32>), Error>)
    requires
        old(input).inv(),
        n <= 64,
    ensures
        final(input).moved_from(*old(input)),
        ({
            let bytes = old(input).bytes();
            let at = old(input).pos();
            match r {
                Ok((types, data)) => {
                    &&& at + 5 * n <= old(input).bound()
                    &&& types@ == bytes.subrange(at, at + n)
                    &&& data@.len() == n
                    &&& forall|i: int|
                        0 <= i < n ==> #[trigger] data@[i] == le32(bytes, at + n + 4 * i)
                    &&& final(input).pos() == at + 5 * n
                },
                Err(Error::Cancelled) => old(input).guard().may_read(true),
                Err(e) => at + 5 * n > old(input).bound() && e == Error::InvalidData(
                    "truncated input",
                ),
            }
        }),
{
    let types: Vec<u8> = input.read(n)?;
    let mut data: Vec<u32> = Vec::new();
    while data.len() < n
        invariant
            data@.len() <= n,
            input.moved_from(*old(input)),
            input.pos() == old(input).pos() + n + 4 * data@.len(),
            old(input).pos() + n <= old(input).bound(),
            input.pos() <= input.bound(),
            forall|i: int|
                0 <= i < data@.len() ==> #[trigger] data@[i] == le32(
                    old(input).bytes(),
                    old(input).pos() + n + 4 * i,
                ),
        decreases n - data@.len(),
    {
        let value: u32 = input.u32()?;
        proof {
            input.lemma_inv();
        }
        data.push(value);
    }
    Ok((types, data))
}

/// Reads a container's header.
fn read_header(input: &mut Input<'_>) -> (r: Result<Header, Error>)
    requires
        old(input).inv(),
        old(input).pos() == 0,
        old(input).bound() == old(input).bytes().len(),
    ensures
        final(input).moved_from(*old(input)),
        match r {
            Ok(h) => {
                &&& header_error(old(input).bytes()) is None
                &&& header_is(h, old(input).bytes())
                &&& final(input).pos() == header_size(h.version)
                &&& header_size(h.version) <= old(input).bytes().len()
            },
            Err(Error::Cancelled) => old(input).guard().may_read(true),
            Err(e) => header_error(old(input).bytes()) == Some(e),
        },
{
    let ghost bytes = input.bytes();
    let identifier: u32 = input.u32()?;
    if identifier != X3F_FOVB {
        return Err(Error::InvalidData("invalid X3F signature"));
    }
    let version: u32 = input.u32()?;
    let unique_identifier: Vec<u8> = input.read(SIZE_UNIQUE_IDENTIFIER)?;
    let mut header: Header = Header {
        identifier,
        version,
        unique_identifier,
        mark_bits: 0,
        columns: 0,
        rows: 0,
        rotation: 0,
        white_balance: Vec::new(),
        color_mode: Vec::new(),
        extended_types: Vec::new(),
        extended_data: Vec::new(),
    };
    if version < X3F_VERSION_4_0 {
        header.mark_bits = input.u32()?;
        header.columns = input.u32()?;
        header.rows = input.u32()?;
        header.rotation = input.u32()?;
        if version >= X3F_VERSION_2_1 {
            let n: usize = if version >= X3F_VERSION_3_0 {
                NUM_EXT_DATA_3_0
            } else {
                NUM_EXT_DATA_2_1
            };
            let white_balance: Vec<u8> = input.read(SIZE_WHITE_BALANCE)?;
            proof {
                input.lemma_inv();
                lemma_field_nul(bytes, 40, 72);
            }
            if !contains_nul(&white_balance) {
                return Err(Error::InvalidData("unterminated white balance"));
            }
            header.white_balance = white_balance;
            if version >= X3F_VERSION_2_3 {
                let color_mode: Vec<u8> = input.read(SIZE_COLOR_MODE)?;
                proof {
                    input.lemma_inv();
                    lemma_field_nul(bytes, 72, 104);
                }
                if !contains_nul(&color_mode) {
                    return Err(Error::InvalidData("unterminated color mode"));
                }
                header.color_mode = color_mode;
            }
            let (types, data): (Vec<u8>, Vec<u32>) = read_extended(input, n)?;
            header.extended_types = types;
            header.extended_data = data;
        }
    }
    proof {
        input.lemma_inv();
    }
    Ok(header)
}

/// What is wrong with the section at directory entry `at`, in a container whose
/// directory starts at `directory`.
pub open spec fn section_error(bytes: Seq<u8>, header_end: int, directory: int, at: int) -> Option<
    Error,
> {
    let start = le32(bytes, at) as int;
    let size = le32(bytes, at + 4) as int;
    let identifier = le32(bytes, start);
    if start < header_end || start + size > directory || size < 8 {
        Some(Error::InvalidData("section outside container data"))
    } else if identifier == X3F_SECP {
        if size < 24 {
            Some(Error::InvalidData("truncated property header"))
        } else {
            None
        }
    } else if identifier == X3F_SECI {
        let columns = le32(bytes, start + 16);
        let rows = le32(bytes, start + 20);
        if size < 28 {
            Some(Error::InvalidData("truncated image header"))
        } else if le32(bytes, start + 8) > 0xffff || le32(bytes, start + 12) > 0xffff {
            Some(Error::InvalidData("invalid image format"))
        } else if columns == 0 || rows == 0 {
            Some(Error::InvalidData("empty image dimensions"))
        } else if columns * rows * 6 > MAX_ALLOCATION {
            Some(Error::Allocation)
        } else {
            None
        }
    } else if identifier == X3F_SECC {
        if size < 28 {
            Some(Error::InvalidData("truncated CAMF header"))
        } else {
            None
        }
    } else {
        None
    }
}

/// Whether `pl` is the header of the property section at `start`, not loaded.
pub open spec fn property_header_is(pl: PropertyList, bytes: Seq<u8>, start: int) -> bool {
    &&& pl.num_properties == le32(bytes, start + 8)
    &&& pl.character_format == le32(bytes, start + 12)
    &&& pl.reserved == le32(bytes, start + 16)
    &&& pl.total_length == le32(bytes, start + 20)
    &&& pl.unloaded()
}

/// Whether `id` is the header of the image section at `start`, not loaded.
pub open spec fn image_header_is(id: ImageData, bytes: Seq<u8>, start: int) -> bool {
    &&& id.type_ == le32(bytes, start + 8)
    &&& id.format == le32(bytes, start + 12)
    &&& id.type_format == id.type_ * 0x1_0000 + id.format
    &&& id.columns == le32(bytes, start + 16)
    &&& id.rows == le32(bytes, start + 20)
    &&& id.row_stride == le32(bytes, start + 24)
    &&& id.unloaded()
}

/// Whether `camf` is the header of the metadata section at `start`, not loaded.
pub open spec fn camf_header_is(camf: Camf, bytes: Seq<u8>, start: int) -> bool {
    &&& camf.type_ == le32(bytes, start + 8)
    &&& camf.val0 == le32(bytes, start + 12)
    &&& camf.val1 == le32(bytes, start + 16)
    &&& camf.val2 == le32(bytes, start + 20)
    &&& camf.val3 == le32(bytes, start + 24)
    &&& camf.unloaded()
}

/// Whether `de` is the section at directory entry `at`, not loaded.
pub open spec fn section_is(de: DirectoryEntry, bytes: Seq<u8>, at: int) -> bool {
    let start = le32(bytes, at) as int;
    &&& de.input.offset == start
    &&& de.input.size == le32(bytes, at + 4)
    &&& de.output.offset == 0
    &&& de.output.size == 0
    &&& de.type_ == le32(bytes, at + 8)
    &&& de.identifier == le32(bytes, start)
    &&& de.version == le32(bytes, start + 4)
    &&& match de.data {
        Subsection::PropertyList(pl) => de.identifier == X3F_SECP && property_header_is(
            pl,
            bytes,
            start,
        ),
        Subsection::Image(id) => de.identifier == X3F_SECI && image_header_is(id, bytes, start),
        Subsection::Camf(camf) => de.identifier == X3F_SECC && camf_header_is(camf, bytes, start),
        Subsection::Other => de.identifier != X3F_SECP && de.identifier != X3F_SECI
            && de.identifier != X3F_SECC,
    }
}

impl PropertyList {
    pub open spec fn unloaded(self) -> bool {
        self.properties@.len() == 0 && self.data@.len() == 0
    }
}

impl ImageData {
    pub open spec fn unloaded(self) -> bool {
        self.huffman is None && self.tru is None && self.quattro is None && self.data@.len() == 0
    }
}

impl Camf {
    pub open spec fn unloaded(self) -> bool {
        &&& self.data@.len() == 0
        &&& self.table@.len() == 0
        &&& self.tree.nodes@.len() == 0
        &&& self.decoding_size == 0
        &&& self.decoded_data@.len() == 0
        &&& self.entries@.len() == 0
    }
}

/// The first error among the first `k` sections.
pub open spec fn sections_error(bytes: Seq<u8>, header_end: int, directory: int, k: nat) -> Option<
    Error,
>
    decreases k,
{
    if k == 0 {
        None
    } else {
        crate::control::first(
            sections_error(bytes, header_end, directory, (k - 1) as nat),
            section_error(bytes, header_end, directory, directory + 12 + 12 * (k - 1)),
        )
    }
}

/// Where a container's directory starts: its last four bytes say.
pub open spec fn directory_start(bytes: Seq<u8>) -> int {
    le32(bytes, bytes.len() - 4) as int
}

/// The number of sections in a container.
pub open spec fn section_count(bytes: Seq<u8>) -> int {
    le32(bytes, directory_start(bytes) + 8) as int
}

/// What is wrong with a container.
pub open spec fn container_error(bytes: Seq<u8>) -> Option<Error> {
    let header_end = header_size(le32(bytes, 4));
    let d = directory_start(bytes);
    let len = bytes.len() as int;
    let truncated = Some(Error::InvalidData("truncated input"));
    if header_error(bytes) is Some {
        header_error(bytes)
    } else if d < header_end {
        Some(Error::InvalidData("directory overlaps header"))
    } else if d > len {
        Some(Error::InvalidData("offset outside input"))
    } else if d + 4 > len {
        truncated
    } else if le32(bytes, d) != X3F_SECD {
        Some(Error::InvalidData("invalid directory signature"))
    } else if d + 12 > len {
        truncated
    } else if section_count(bytes) * 12 + 4 > len - (d + 12) && section_count(bytes) > 0 {
        Some(Error::InvalidData("directory count exceeds input"))
    } else if section_count(bytes) * DIRECTORY_ENTRY_SIZE > MAX_ALLOCATION {
        Some(Error::Allocation)
    } else {
        sections_error(bytes, header_end, d, section_count(bytes) as nat)
    }
}

/// Whether `x3f` is the container that `bytes` holds, with no section loaded.
pub open spec fn container_is(x3f: X3f, bytes: Seq<u8>) -> bool {
    let d = directory_start(bytes);
    &&& x3f.input@ == bytes
    &&& header_is(x3f.header, bytes)
    &&& x3f.directory_identifier == X3F_SECD
    &&& x3f.directory_version == le32(bytes, d + 4)
    &&& x3f.directory@.len() == section_count(bytes)
    &&& forall|i: int|
        0 <= i < x3f.directory@.len() ==> section_is(
            #[trigger] x3f.directory@[i],
            bytes,
            d + 12 + 12 * i,
        )
}

proof fn lemma_sections_error_stays(
    bytes: Seq<u8>,
    header_end: int,
    directory: int,
    j: nat,
    k: nat,
)
    requires
        j <= k,
        sections_error(bytes, header_end, directory, j) is Some,
    ensures
        sections_error(bytes, header_end, directory, k) == sections_error(
            bytes,
            header_end,
            directory,
            j,
        ),
    decreases k - j,
{
    if j < k {
        lemma_sections_error_stays(bytes, header_end, directory, j, (k - 1) as nat);
    }
}

/// Reads the directory entry at the cursor and the header of its section, and
/// moves on to the next entry.
fn read_section(input: &mut Input<'_>, header_end: u64, directory: u64) -> (r: Result<
    DirectoryEntry,
    Error,
>)
    requires
        old(input).inv(),
        old(input).pos() + 12 <= old(input).bytes().len(),
        old(input).bound() == old(input).bytes().len(),
        directory <= old(input).bytes().len(),
    ensures
        final(input).moved_from(*old(input)),
        match r {
            Ok(de) => {
                &&& section_error(
                    old(input).bytes(),
                    header_end as int,
                    directory as int,
                    old(input).pos(),
                ) is None
                &&& section_is(de, old(input).bytes(), old(input).pos())
                &&& de.inv()
                &&& final(input).pos() == old(input).pos() + 12
            },
            Err(Error::Cancelled) => old(input).guard().may_read(true),
            Err(e) => section_error(
                old(input).bytes(),
                header_end as int,
                directory as int,
                old(input).pos(),
            ) == Some(e),
        },
{
    let ghost bytes = input.bytes();
    let offset: u32 = input.u32()?;
    let size: u32 = input.u32()?;
    let type_: u32 = input.u32()?;
    let next: u64 = input.position();
    let start: u64 = offset as u64;
    let end: u64 = start + size as u64;
    if start < header_end || end > directory || size < 8 {
        return Err(Error::InvalidData("section outside container data"));
    }
    input.seek(start)?;
    let identifier: u32 = input.u32()?;
    let version: u32 = input.u32()?;
    let data: Subsection = if identifier == X3F_SECP {
        if size < 24 {
            return Err(Error::InvalidData("truncated property header"));
        }
        let num_properties: u32 = input.u32()?;
        let character_format: u32 = input.u32()?;
        let reserved: u32 = input.u32()?;
        let total_length: u32 = input.u32()?;
        Subsection::PropertyList(
            PropertyList {
                num_properties,
                character_format,
                reserved,
                total_length,
                properties: Vec::new(),
                data: Vec::new(),
            },
        )
    } else if identifier == X3F_SECI {
        if size < 28 {
            return Err(Error::InvalidData("truncated image header"));
        }
        let image_type: u32 = input.u32()?;
        let format: u32 = input.u32()?;
        if image_type > 0xffff || format > 0xffff {
            return Err(Error::InvalidData("invalid image format"));
        }
        let columns: u32 = input.u32()?;
        let rows: u32 = input.u32()?;
        let row_stride: u32 = input.u32()?;
        if columns == 0 || rows == 0 {
            return Err(Error::InvalidData("empty image dimensions"));
        }
        let pixels: usize = checked_size(columns as usize, rows as usize)?;
        checked_size(pixels, 6)?;
        Subsection::Image(
            ImageData {
                type_: image_type,
                format,
                type_format: image_type * 0x1_0000 + format,
                columns,
                rows,
                row_stride,
                huffman: None,
                tru: None,
                quattro: None,
                data: Vec::new(),
            },
        )
    } else if identifier == X3F_SECC {
        if size < 28 {
            return Err(Error::InvalidData("truncated CAMF header"));
        }
        let camf_type: u32 = input.u32()?;
        let val0: u32 = input.u32()?;
        let val1: u32 = input.u32()?;
        let val2: u32 = input.u32()?;
        let val3: u32 = input.u32()?;
        Subsection::Camf(
            Camf {
                type_: camf_type,
                val0,
                val1,
                val2,
                val3,
                data: Vec::new(),
                table: Vec::new(),
                tree: HuffTree::empty(),
                decoding_size: 0,
                decoded_data: Vec::new(),
                entries: Vec::new(),
            },
        )
    } else {
        Subsection::Other
    };
    input.seek(next)?;
    Ok(
        DirectoryEntry {
            input: Extent { offset, size },
            output: Extent { offset: 0, size: 0 },
            type_,
            identifier,
            version,
            data,
        },
    )
}

/// Parses a container: its header, and the headers of its sections.
pub fn new_from_file<'a>(infile: Option<&'a [u8]>, control: Control<'a>) -> (r: Result<
    X3f<'a>,
    Error,
>)
    ensures
        control.allows(r),
        match r {
            Ok(x3f) => {
                &&& infile is Some
                &&& container_error(infile->0@) is None
                &&& container_is(x3f, infile->0@)
                &&& x3f.inv()
            },
            Err(Error::Cancelled) => control.may_read(true),
            Err(e) => {
                ||| infile is None && e == Error::InvalidData("missing input stream")
                ||| infile is Some && container_error(infile->0@) == Some(e)
            },
        },
{
    let mut input: Input<'a> = Input::new(infile, control)?;
    let file: &'a [u8] = match infile {
        Some(file) => file,
        None => {
            return Err(Error::InvalidData("missing input stream"));
        },
    };
    let ghost bytes = file@;
    let header: Header = read_header(&mut input)?;
    let header_end: u64 = input.position();
    proof {
        input.lemma_inv();
    }
    let tail: u64 = input.end() - 4;
    input.seek(tail)?;
    let directory: u64 = input.u32()? as u64;
    if directory < header_end {
        return Err(Error::InvalidData("directory overlaps header"));
    }
    input.seek(directory)?;
    let directory_identifier: u32 = input.u32()?;
    if directory_identifier != X3F_SECD {
        return Err(Error::InvalidData("invalid directory signature"));
    }
    let directory_version: u32 = input.u32()?;
    let count: usize = input.u32()? as usize;
    let left: usize = input.remaining();
    let room: usize = if left >= 4 {
        (left - 4) / 12
    } else {
        0
    };
    if count > room {
        return Err(Error::InvalidData("directory count exceeds input"));
    }
    checked_size(count, DIRECTORY_ENTRY_SIZE)?;
    let mut entries: Vec<DirectoryEntry> = Vec::new();
    let mut i: usize = 0;
    while i < count
        invariant
            i <= count,
            input.inv(),
            input.bytes() == bytes,
            input.bound() == bytes.len(),
            input.guard() == control,
            control.may_read(false),
            bytes == infile->0@,
            infile is Some,
            directory == directory_start(bytes),
            count == section_count(bytes),
            header_end == header_size(le32(bytes, 4)),
            directory <= bytes.len(),
            count > 0 ==> directory + 12 + 12 * count + 4 <= bytes.len(),
            input.pos() == directory + 12 + 12 * i,
            container_error(bytes) == sections_error(
                bytes,
                header_end as int,
                directory as int,
                count as nat,
            ),
            sections_error(bytes, header_end as int, directory as int, i as nat) is None,
            entries@.len() == i,
            forall|k: int|
                0 <= k < i ==> section_is(
                    #[trigger] entries@[k],
                    bytes,
                    directory + 12 + 12 * k,
                ),
            forall|k: int| 0 <= k < i ==> (#[trigger] entries@[k]).inv(),
        decreases count - i,
    {
        control.check()?;
        proof {
            if sections_error(
                bytes,
                header_end as int,
                directory as int,
                (i + 1) as nat,
            ) is Some {
                lemma_sections_error_stays(
                    bytes,
                    header_end as int,
                    directory as int,
                    (i + 1) as nat,
                    count as nat,
                );
            }
        }
        let de: DirectoryEntry = read_section(&mut input, header_end, directory)?;
        entries.push(de);
        i = i + 1;
    }
    Ok(X3f { input: file, header, directory_identifier, directory_version, directory: entries })
}

/// A section that was parsed lies between the header and the directory of its
/// container.
pub proof fn law_sections_lie_in_the_container(x3f: X3f, bytes: Seq<u8>, i: int)
    requires
        container_error(bytes) is None,
        container_is(x3f, bytes),
        0 <= i < x3f.directory@.len(),
    ensures
        ({
            let de = x3f.directory@[i];
            &&& header_size(x3f.header.version) <= de.input.offset
            &&& 8 <= de.input.size
            &&& de.input.offset + de.input.size <= directory_start(bytes) <= bytes.len()
        }),
{
    let header_end = header_size(le32(bytes, 4));
    let d = directory_start(bytes);
    let n = section_count(bytes) as nat;
    assert(section_is(x3f.directory@[i], bytes, d + 12 + 12 * i));
    if section_error(bytes, header_end, d, d + 12 + 12 * i) is Some {
        if sections_error(bytes, header_end, d, i as nat) is Some {
            lemma_sections_error_stays(bytes, header_end, d, i as nat, n);
        }
        assert(sections_error(bytes, header_end, d, (i + 1) as nat) is Some);
        lemma_sections_error_stays(bytes, header_end, d, (i + 1) as nat, n);
    }
}

/// Whether a section has this signature and, if it is an image, this format.
pub open spec fn entry_matches(de: DirectoryEntry, identifier: u32, image_type: u32) -> bool {
    &&& de.identifier == identifier
    &&& identifier == X3F_SECI ==> de.data is Image && de.data->Image_0.type_format == image_type
}

/// Whether `r` is the first section that matches.
pub open spec fn is_first_entry(
    directory: Seq<DirectoryEntry>,
    identifier: u32,
    image_type: u32,
    r: Option<usize>,
) -> bool {
    match r {
        Some(i) => {
            &&& i < directory.len()
            &&& entry_matches(directory[i as int], identifier, image_type)
            &&& forall|k: int|
                0 <= k < i ==> !entry_matches(#[trigger] directory[k], identifier, image_type)
        },
        None => forall|k: int|
            0 <= k < directory.len() ==> !entry_matches(
                #[trigger] directory[k],
                identifier,
                image_type,
            ),
    }
}

/// The place of the first section from `i` on that matches.
pub open spec fn find_section(
    directory: Seq<DirectoryEntry>,
    identifier: u32,
    image_type: u32,
    i: int,
) -> Option<int>
    decreases directory.len() - i,
{
    if !(0 <= i < directory.len()) {
        None
    } else if entry_matches(directory[i], identifier, image_type) {
        Some(i)
    } else {
        find_section(directory, identifier, image_type, i + 1)
    }
}

/// The first section with this signature and, for an image, this format.
pub fn x3f_get_de(x3f: &X3f<'_>, identifier: u32, image_type: u32) -> (r: Option<usize>)
    ensures
        is_first_entry(x3f.directory@, identifier, image_type, r),
        match r {
            Some(i) => find_section(x3f.directory@, identifier, image_type, 0) == Some(i as int),
            None => find_section(x3f.directory@, identifier, image_type, 0) is None,
        },
{
    let mut i: usize = 0;
    while i < x3f.directory.len()
        invariant
            i <= x3f.directory@.len(),
            find_section(x3f.directory@, identifier, image_type, 0) == find_section(
                x3f.directory@,
                identifier,
                image_type,
                i as int,
            ),
            forall|k: int|
                0 <= k < i ==> !entry_matches(
                    #[trigger] x3f.directory@[k],
                    identifier,
                    image_type,
                ),
        decreases x3f.directory@.len() - i,
    {
        let de: &DirectoryEntry = &x3f.directory[i];
        if de.identifier == identifier {
            if identifier == X3F_SECI {
                if let Subsection::Image(id) = &de.data {
                    if id.type_format == image_type {
                        return Some(i);
                    }
                }
            } else {
                return Some(i);
            }
        }
        i = i + 1;
    }
    None
}

/// The formats of raw images, in the order in which they are looked for.
pub open spec fn raw_formats() -> Seq<u32> {
    seq![
        X3F_IMAGE_RAW_HUFFMAN_X530,
        X3F_IMAGE_RAW_HUFFMAN_10BIT,
        X3F_IMAGE_RAW_TRUE,
        X3F_IMAGE_RAW_MERRILL,
        X3F_IMAGE_RAW_QUATTRO,
        X3F_IMAGE_RAW_SDQ,
        X3F_IMAGE_RAW_SDQH,
    ]
}

/// Whether a container has an image of this format.
pub open spec fn has_format(x3f: X3f, image_type: u32) -> bool {
    exists|i: int|
        0 <= i < x3f.directory@.len() && entry_matches(
            #[trigger] x3f.directory@[i],
            X3F_SECI,
            image_type,
        )
}

/// The raw image: the first section of the first raw format that occurs.
pub fn x3f_get_raw(x3f: &X3f<'_>) -> (r: Option<usize>)
    ensures
        match r {
            Some(i) => exists|f: int|
                0 <= f < raw_formats().len() && is_first_entry(
                    x3f.directory@,
                    X3F_SECI,
                    #[trigger] raw_formats()[f],
                    r,
                ) && forall|g: int| 0 <= g < f ==> !has_format(*x3f, #[trigger] raw_formats()[g]),
            None => forall|g: int|
                0 <= g < raw_formats().len() ==> !has_format(*x3f, #[trigger] raw_formats()[g]),
        },
{
    let formats: [u32; 7] = [
        X3F_IMAGE_RAW_HUFFMAN_X530,
        X3F_IMAGE_RAW_HUFFMAN_10BIT,
        X3F_IMAGE_RAW_TRUE,
        X3F_IMAGE_RAW_MERRILL,
        X3F_IMAGE_RAW_QUATTRO,
        X3F_IMAGE_RAW_SDQ,
        X3F_IMAGE_RAW_SDQH,
    ];
    assert(formats@ =~= raw_formats());
    let mut f: usize = 0;
    while f < 7
        invariant
            f <= 7,
            formats@ == raw_formats(),
            forall|g: int| 0 <= g < f ==> !has_format(*x3f, #[trigger] raw_formats()[g]),
        decreases 7 - f,
    {
        let r: Option<usize> = x3f_get_de(x3f, X3F_SECI, formats[f]);
        if r.is_some() {
            assert(is_first_entry(x3f.directory@, X3F_SECI, raw_formats()[f as int], r));
            return r;
        }
        f = f + 1;
    }
    None
}

/// The uncompressed thumbnail.
pub fn x3f_get_thumb_plain(x3f: &X3f<'_>) -> (r: Option<usize>)
    ensures
        is_first_entry(x3f.directory@, X3F_SECI, X3F_IMAGE_THUMB_PLAIN, r),
{
    x3f_get_de(x3f, X3F_SECI, X3F_IMAGE_THUMB_PLAIN)
}

/// The Huffman-coded thumbnail.
pub fn x3f_get_thumb_huffman(x3f: &X3f<'_>) -> (r: Option<usize>)
    ensures
        is_first_entry(x3f.directory@, X3F_SECI, X3F_IMAGE_THUMB_HUFFMAN, r),
{
    x3f_get_de(x3f, X3F_SECI, X3F_IMAGE_THUMB_HUFFMAN)
}

/// The JPEG thumbnail.
pub fn x3f_get_thumb_jpeg(x3f: &X3f<'_>) -> (r: Option<usize>)
    ensures
        is_first_entry(x3f.directory@, X3F_SECI, X3F_IMAGE_THUMB_JPEG, r),
{
    x3f_get_de(x3f, X3F_SECI, X3F_IMAGE_THUMB_JPEG)
}

/// The metadata section.
pub fn x3f_get_camf(x3f: &X3f<'_>) -> (r: Option<usize>)
    ensures
        is_first_entry(x3f.directory@, X3F_SECC, 0, r),
        match r {
            Some(i) => find_section(x3f.directory@, X3F_SECC, 0, 0) == Some(i as int),
            None => find_section(x3f.directory@, X3F_SECC, 0, 0) is None,
        },
{
    x3f_get_de(x3f, X3F_SECC, 0)
}

/// The property section.
pub fn x3f_get_prop(x3f: &X3f<'_>) -> (r: Option<usize>)
    ensures
        is_first_entry(x3f.directory@, X3F_SECP, 0, r),
        match r {
            Some(i) => find_section(x3f.directory@, X3F_SECP, 0, 0) == Some(i as int),
            None => find_section(x3f.directory@, X3F_SECP, 0, 0) is None,
        },
{
    x3f_get_de(x3f, X3F_SECP, 0)
}

/// The signatures spell "FOVb", "SECd", "SECp", "SECi" and "SECc".
proof fn lemma_signatures()
    ensures
        written32(X3F_FOVB) == seq![0x46u8, 0x4fu8, 0x56u8, 0x62u8],
        written32(X3F_SECD) == seq![0x53u8, 0x45u8, 0x43u8, 0x64u8],
        written32(X3F_SECP) == seq![0x53u8, 0x45u8, 0x43u8, 0x70u8],
        written32(X3F_SECI) == seq![0x53u8, 0x45u8, 0x43u8, 0x69u8],
        written32(X3F_SECC) == seq![0x53u8, 0x45u8, 0x43u8, 0x63u8],
{
    assert(written32(X3F_FOVB) =~= seq![0x46u8, 0x4fu8, 0x56u8, 0x62u8]);
    assert(written32(X3F_SECD) =~= seq![0x53u8, 0x45u8, 0x43u8, 0x64u8]);
    assert(written32(X3F_SECP) =~= seq![0x53u8, 0x45u8, 0x43u8, 0x70u8]);
    assert(written32(X3F_SECI) =~= seq![0x53u8, 0x45u8, 0x43u8, 0x69u8]);
    assert(written32(X3F_SECC) =~= seq![0x53u8, 0x45u8, 0x43u8, 0x63u8]);
}

/// The header of a container is read back as it is written: its signature, version and
/// identifier; before version 4.0, four numbers; from version 2.1 on, the white balance
/// in 32 bytes; from version 2.3 on, the colour mode in another 32; and the extended
/// settings, 32 of them or, from version 3.0 on, 64: first the kinds of all, a byte each,
/// and then their values.
pub proof fn law_headers_are_read_back(
    x3f: X3f,
    bytes: Seq<u8>,
    version: u32,
    numbers: Seq<u32>,
    i: int,
    value: u32,
)
    requires
        container_error(bytes) is None,
        container_is(x3f, bytes),
        stands_at(bytes, 4, written32(version)),
        numbers.len() == 4,
        version < 0x4_0000 ==> {
            &&& stands_at(bytes, 24, written32(numbers[0]))
            &&& stands_at(bytes, 28, written32(numbers[1]))
            &&& stands_at(bytes, 32, written32(numbers[2]))
            &&& stands_at(bytes, 36, written32(numbers[3]))
        },
        0x2_0001 <= version < 0x4_0000 ==> {
            let n: int = if version < 0x3_0000 {
                32
            } else {
                64
            };
            let kinds: int = if version < 0x2_0003 {
                72
            } else {
                104
            };
            0 <= i < n && stands_at(bytes, kinds + n + 4 * i, written32(value))
        },
    ensures
        x3f.input@ == bytes,
        x3f.header.version == version,
        stands_at(bytes, 0, seq![0x46u8, 0x4fu8, 0x56u8, 0x62u8]),
        x3f.header.unique_identifier@ == bytes.subrange(8, 24),
        version < 0x4_0000 ==> {
            &&& x3f.header.mark_bits == numbers[0]
            &&& x3f.header.columns == numbers[1]
            &&& x3f.header.rows == numbers[2]
            &&& x3f.header.rotation == numbers[3]
        },
        0x2_0001 <= version < 0x4_0000 ==> {
            let kinds: int = if version < 0x2_0003 {
                72
            } else {
                104
            };
            &&& x3f.header.white_balance@ == bytes.subrange(40, 72)
            &&& 0x2_0003 <= version ==> x3f.header.color_mode@ == bytes.subrange(72, 104)
            &&& x3f.header.extended_types@[i] == bytes[kinds + i]
            &&& x3f.header.extended_data@[i] == value
        },
{
    law_numbers_are_read_back(bytes, 4, version);
    if version < 0x4_0000 {
        law_numbers_are_read_back(bytes, 24, numbers[0]);
        law_numbers_are_read_back(bytes, 28, numbers[1]);
        law_numbers_are_read_back(bytes, 32, numbers[2]);
        law_numbers_are_read_back(bytes, 36, numbers[3]);
    }
    if 0x2_0001 <= version < 0x4_0000 {
        let n = extended_count(version);
        let kinds = extended_start(version);
        law_numbers_are_read_back(bytes, kinds + n + 4 * i, value);
        assert(x3f.header.extended_data@[i] == le32(bytes, kinds + n + 4 * i));
    }
    assert(header_error(bytes) is None);
    assert(bytes.subrange(0, 4) =~= seq![0x46u8, 0x4fu8, 0x56u8, 0x62u8]) by {
        let (a, b, c, d) = (bytes[0] as int, bytes[1] as int, bytes[2] as int, bytes[3] as int);
        assert(a + b * 0x100 + c * 0x1_0000 + d * 0x100_0000 == 0x6256_4f46);
    }
}

/// A section is read back as it is written. The last four bytes of the container say
/// where its directory starts; after its signature, version and count, the directory
/// says of each section where it starts, its size and its kind. A section starts with
/// its signature and version. Five numbers follow for an image (its type and format,
/// columns, rows and stride) and for metadata (their type and four more), and four for
/// properties, of which the first one is their count.
pub proof fn law_sections_are_read_back(
    x3f: X3f,
    bytes: Seq<u8>,
    directory: u32,
    count: u32,
    i: int,
    offset: u32,
    size: u32,
    kind: u32,
    identifier: u32,
    version: u32,
    numbers: Seq<u32>,
)
    requires
        container_error(bytes) is None,
        container_is(x3f, bytes),
        stands_at(bytes, bytes.len() - 4, written32(directory)),
        stands_at(bytes, directory + 8, written32(count)),
        0 <= i < count,
        stands_at(bytes, directory + 12 + 12 * i, written32(offset)),
        stands_at(bytes, directory + 16 + 12 * i, written32(size)),
        stands_at(bytes, directory + 20 + 12 * i, written32(kind)),
        stands_at(bytes, offset as int, written32(identifier)),
        stands_at(bytes, offset + 4, written32(version)),
        identifier == X3F_SECP ==> numbers.len() == 4,
        identifier == X3F_SECI || identifier == X3F_SECC ==> numbers.len() == 5,
        identifier == X3F_SECP || identifier == X3F_SECI || identifier == X3F_SECC ==> forall|
            k: int,
        |
            0 <= k < numbers.len() ==> stands_at(
                bytes,
                offset + 8 + 4 * k,
                written32(#[trigger] numbers[k]),
            ),
    ensures
        x3f.directory@.len() == count,
        ({
            let de = x3f.directory@[i];
            &&& de.input.offset == offset
            &&& de.input.size == size
            &&& de.type_ == kind
            &&& de.identifier == identifier
            &&& de.version == version
            &&& match de.data {
                Subsection::PropertyList(list) => identifier == X3F_SECP && list.num_properties
                    == numbers[0] && list.character_format == numbers[1] && list.reserved
                    == numbers[2] && list.total_length == numbers[3],
                Subsection::Image(id) => identifier == X3F_SECI && id.type_ == numbers[0]
                    && id.format == numbers[1] && id.columns == numbers[2] && id.rows == numbers[3]
                    && id.row_stride == numbers[4] && id.type_format == numbers[0] * 0x1_0000
                    + numbers[1],
                Subsection::Camf(camf) => identifier == X3F_SECC && camf.type_ == numbers[0]
                    && camf.val0 == numbers[1] && camf.val1 == numbers[2] && camf.val2
                    == numbers[3] && camf.val3 == numbers[4],
                Subsection::Other => identifier != X3F_SECP && identifier != X3F_SECI && identifier
                    != X3F_SECC,
            }
        }),
{
    law_numbers_are_read_back(bytes, bytes.len() - 4, directory);
    law_numbers_are_read_back(bytes, directory + 8, count);
    let at = directory + 12 + 12 * i;
    law_numbers_are_read_back(bytes, at, offset);
    law_numbers_are_read_back(bytes, at + 4, size);
    law_numbers_are_read_back(bytes, at + 8, kind);
    law_numbers_are_read_back(bytes, offset as int, identifier);
    law_numbers_are_read_back(bytes, offset + 4, version);
    let de = x3f.directory@[i];
    assert(section_is(de, bytes, directory_start(bytes) + 12 + 12 * i));
    if identifier == X3F_SECP || identifier == X3F_SECI || identifier == X3F_SECC {
        let (a, b, c, d) = (numbers[0], numbers[1], numbers[2], numbers[3]);
        law_numbers_are_read_back(bytes, offset + 8 + 4 * 0, a);
        law_numbers_are_read_back(bytes, offset + 8 + 4 * 1, b);
        law_numbers_are_read_back(bytes, offset + 8 + 4 * 2, c);
        law_numbers_are_read_back(bytes, offset + 8 + 4 * 3, d);
        if identifier != X3F_SECP {
            let e = numbers[4];
            law_numbers_are_read_back(bytes, offset + 8 + 4 * 4, e);
        }
    }
}

/// The first section with a signature (and format, for an image) is the one that is
/// found, from wherever the search starts before it.
pub proof fn law_the_first_section_is_found(
    directory: Seq<DirectoryEntry>,
    identifier: u32,
    image_type: u32,
    from: int,
    i: int,
)
    requires
        0 <= from <= i <= directory.len(),
        forall|k: int|
            from <= k < i ==> (#[trigger] directory[k]).identifier != identifier || identifier
                == X3F_SECI && (directory[k].data is Image ==> directory[k].data->Image_0.type_format
                != image_type),
        i < directory.len() ==> directory[i].identifier == identifier && (identifier == X3F_SECI
            ==> directory[i].data is Image && directory[i].data->Image_0.type_format == image_type),
    ensures
        find_section(directory, identifier, image_type, from) == (if i < directory.len() {
            Some(i)
        } else {
            None
        }),
    decreases i - from,
{
    if from < i {
        let de = directory[from];
        law_the_first_section_is_found(directory, identifier, image_type, from + 1, i);
    }
}

/// A container that is written as it should be is accepted: with its signature, a header as
/// large as its version has it, with the ends of the texts in it, and a directory behind it
/// that says of as many sections as it counts where they are, each in order.
pub proof fn law_written_containers_are_accepted(
    bytes: Seq<u8>,
    version: u32,
    header_end: int,
    directory: u32,
    count: u32,
    wb_end: int,
    mode_end: int,
)
    requires
        header_end == (if version >= 0x4_0000 {
            24int
        } else if version < 0x2_0001 {
            40int
        } else if version < 0x2_0003 {
            72 + 5 * 32int
        } else if version < 0x3_0000 {
            104 + 5 * 32int
        } else {
            104 + 5 * 64int
        }),
        ({
            &&& stands_at(bytes, 0, seq![0x46u8, 0x4fu8, 0x56u8, 0x62u8])
            &&& stands_at(bytes, 4, written32(version))
            &&& 0x2_0001 <= version < 0x4_0000 ==> 40 <= wb_end < 72 && bytes[wb_end] == 0
            &&& 0x2_0003 <= version < 0x4_0000 ==> 72 <= mode_end < 104 && bytes[mode_end] == 0
            &&& header_end <= directory
            &&& directory + 12 + 12 * count + 4 <= bytes.len()
            &&& stands_at(bytes, bytes.len() - 4, written32(directory))
            &&& stands_at(bytes, directory as int, seq![0x53u8, 0x45u8, 0x43u8, 0x64u8])
            &&& stands_at(bytes, directory + 8, written32(count))
            &&& 152 * count <= MAX_ALLOCATION
            &&& forall|i: int|
                0 <= i < count ==> #[trigger] section_error(
                    bytes,
                    header_end,
                    directory as int,
                    directory + 12 + 12 * i,
                ) is None
        }),
    ensures
        container_error(bytes) is None,
{
    lemma_signatures();
    law_numbers_are_read_back(bytes, 0, X3F_FOVB);
    law_numbers_are_read_back(bytes, 4, version);
    law_numbers_are_read_back(bytes, bytes.len() - 4, directory);
    law_numbers_are_read_back(bytes, directory as int, X3F_SECD);
    law_numbers_are_read_back(bytes, directory + 8, count);
    if 0x2_0001 <= version < 0x4_0000 {
        assert(has_nul(bytes, 40, 72)) by {
            assert(bytes[wb_end] == 0);
        }
    }
    if 0x2_0003 <= version < 0x4_0000 {
        assert(has_nul(bytes, 72, 104)) by {
            assert(bytes[mode_end] == 0);
        }
    }
    assert(header_size(version) == header_end);
    lemma_sections_fit(bytes, header_end, directory as int, count as nat);
}

proof fn lemma_sections_fit(bytes: Seq<u8>, header_end: int, directory: int, k: nat)
    requires
        forall|i: int|
            0 <= i < k ==> #[trigger] section_error(
                bytes,
                header_end,
                directory,
                directory + 12 + 12 * i,
            ) is None,
    ensures
        sections_error(bytes, header_end, directory, k) is None,
    decreases k,
{
    if k > 0 {
        lemma_sections_fit(bytes, header_end, directory, (k - 1) as nat);
        assert(section_error(bytes, header_end, directory, directory + 12 + 12 * (k - 1)) is None);
    }
}

/// A section is in order if it lies between the header and the directory and has room for
/// the header of its kind; an image must also have a type and a format of 16 bits, and
/// pixels, but not too many.
pub proof fn law_written_sections_are_accepted(
    bytes: Seq<u8>,
    header_end: int,
    directory: int,
    at: int,
    offset: u32,
    size: u32,
    identifier: u32,
    numbers: Seq<u32>,
)
    requires
        stands_at(bytes, at, written32(offset)),
        stands_at(bytes, at + 4, written32(size)),
        stands_at(bytes, offset as int, written32(identifier)),
        header_end <= offset,
        offset + size <= directory,
        8 <= size,
        identifier == X3F_SECP ==> 24 <= size,
        identifier == X3F_SECC ==> 28 <= size,
        identifier == X3F_SECI ==> {
            &&& 28 <= size
            &&& numbers.len() == 4
            &&& stands_at(bytes, offset + 8, written32(numbers[0]))
            &&& stands_at(bytes, offset + 12, written32(numbers[1]))
            &&& stands_at(bytes, offset + 16, written32(numbers[2]))
            &&& stands_at(bytes, offset + 20, written32(numbers[3]))
            &&& numbers[0] < 0x1_0000
            &&& numbers[1] < 0x1_0000
            &&& 0 < numbers[2]
            &&& 0 < numbers[3]
            &&& numbers[2] * numbers[3] * 6 <= MAX_ALLOCATION
        },
    ensures
        section_error(bytes, header_end, directory, at) is None,
{
    law_numbers_are_read_back(bytes, at, offset);
    law_numbers_are_read_back(bytes, at + 4, size);
    law_numbers_are_read_back(bytes, offset as int, identifier);
    if identifier == X3F_SECI {
        law_numbers_are_read_back(bytes, offset + 8, numbers[0]);
        law_numbers_are_read_back(bytes, offset + 12, numbers[1]);
        law_numbers_are_read_back(bytes, offset + 16, numbers[2]);
        law_numbers_are_read_back(bytes, offset + 20, numbers[3]);
    }
}

} // verus!
