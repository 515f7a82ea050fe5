//! The table of named entries in a decoded metadata section.

use crate::camf::{dims_product, CamfDim, CamfEntry, CamfMatrix, CamfValue, MatrixData};
use crate::control::{first, is_cancelled, Control, Error};
use crate::parse::{
    bytes_at, checked_size, cstr, cstr_at, cstr_error, has_cstr, law_numbers_are_read_back,
    law_short_numbers_are_read_back, law_strings_are_read_back, le16, le32, range_error, stands_at,
    u32_at, written16, written32, written_str, MAX_ALLOCATION,
};
use vstd::prelude::*;
use vstd::slice::slice_subrange;

verus! {

/// A list of named strings.
pub const X3F_CMBP: u32 = 0x5062_4d43;
/// A text.
pub const X3F_CMBT: u32 = 0x5462_4d43;
/// A matrix of numbers.
pub const X3F_CMBM: u32 = 0x4d62_4d43;

/// What one dimension and one entry count against the allocation limit.
pub const DIM_SIZE: usize = 24;
pub const ENTRY_SIZE: usize = 160;

/// What is wrong with a text.
pub open spec fn text_error(value: Seq<u8>) -> Option<Error> {
    let len = value.len() as int;
    first(
        range_error(len, 0, 4),
        first(range_error(len, 4, le32(value, 0) as int), cstr_error(value, 4)),
    )
}

/// Where the name of property `i` starts in the entry.
pub open spec fn property_name_at(value: Seq<u8>, i: int) -> int {
    le32(value, 4) + le32(value, 8 + 8 * i)
}

/// Where the value of property `i` starts in the entry.
pub open spec fn property_value_at(value: Seq<u8>, i: int) -> int {
    le32(value, 4) + le32(value, 12 + 8 * i)
}

/// What is wrong with the first `k` properties.
pub open spec fn properties_error(data: Seq<u8>, value: Seq<u8>, k: nat) -> Option<Error>
    decreases k,
{
    if k == 0 {
        None
    } else {
        let i = k - 1;
        first(
            properties_error(data, value, i as nat),
            if property_name_at(value, i) > usize::MAX || property_value_at(value, i)
                > usize::MAX {
                Some(Error::Allocation)
            } else {
                first(
                    cstr_error(data, property_name_at(value, i)),
                    cstr_error(data, property_value_at(value, i)),
                )
            },
        )
    }
}

/// What is wrong with a list of properties.
pub open spec fn property_error(data: Seq<u8>, value: Seq<u8>) -> Option<Error> {
    let len = value.len() as int;
    let n = le32(value, 0);
    first(
        range_error(len, 0, 4),
        first(
            range_error(len, 4, 4),
            if n * 8 > MAX_ALLOCATION {
                Some(Error::Allocation)
            } else {
                first(range_error(len, 8, n * 8), properties_error(data, value, n as nat))
            },
        ),
    )
}

/// The size of dimension `i` of a matrix.
pub open spec fn dim_size(value: Seq<u8>, i: int) -> u32 {
    le32(value, 12 + 12 * i)
}

/// Where the name of dimension `i` starts in the entry.
pub open spec fn dim_name_at(value: Seq<u8>, i: int) -> u32 {
    le32(value, 16 + 12 * i)
}

/// The number of elements that the first `k` dimensions span.
pub open spec fn dim_product(value: Seq<u8>, k: nat) -> int
    decreases k,
{
    if k == 0 {
        1
    } else {
        dim_product(value, (k - 1) as nat) * dim_size(value, k - 1)
    }
}

/// What is wrong with the first `k` dimensions.
pub open spec fn dims_error(data: Seq<u8>, value: Seq<u8>, k: nat) -> Option<Error>
    decreases k,
{
    if k == 0 {
        None
    } else {
        first(
            dims_error(data, value, (k - 1) as nat),
            first(
                cstr_error(data, dim_name_at(value, k - 1) as int),
                if dim_product(value, k) > MAX_ALLOCATION {
                    Some(Error::Allocation)
                } else {
                    None
                },
            ),
        )
    }
}

/// The bytes of one element of a matrix, by its type; 0 for an unknown type.
pub open spec fn element_size(matrix_type: u32) -> int {
    if matrix_type == 0 || matrix_type == 6 {
        2
    } else if matrix_type == 1 || matrix_type == 2 || matrix_type == 3 {
        4
    } else if matrix_type == 5 {
        1
    } else {
        0
    }
}

/// What is wrong with a matrix.
pub open spec fn matrix_error(data: Seq<u8>, value: Seq<u8>) -> Option<Error> {
    let len = value.len() as int;
    let t = le32(value, 0);
    let dims = le32(value, 4);
    let off = le32(value, 8) as int;
    let elements = dim_product(value, dims as nat);
    let unit: int = if t == 3 {
        8
    } else {
        4
    };
    if range_error(len, 0, 4) is Some {
        range_error(len, 0, 4)
    } else if range_error(len, 4, 4) is Some {
        range_error(len, 4, 4)
    } else if range_error(len, 8, 4) is Some {
        range_error(len, 8, 4)
    } else if dims * 12 > MAX_ALLOCATION {
        Some(Error::Allocation)
    } else if range_error(len, 12, dims * 12) is Some {
        range_error(len, 12, dims * 12)
    } else if element_size(t) == 0 {
        Some(Error::InvalidData("unknown CAMF matrix type"))
    } else if dims * DIM_SIZE > MAX_ALLOCATION {
        Some(Error::Allocation)
    } else if dims_error(data, value, dims as nat) is Some {
        dims_error(data, value, dims as nat)
    } else if elements * element_size(t) > MAX_ALLOCATION {
        Some(Error::Allocation)
    } else if range_error(data.len() as int, off, elements * element_size(t)) is Some {
        range_error(data.len() as int, off, elements * element_size(t))
    } else if elements * unit > MAX_ALLOCATION {
        Some(Error::Allocation)
    } else {
        None
    }
}

/// The signed value of 16 bits.
pub open spec fn signed16(u: u16) -> int {
    if u < 0x8000 {
        u as int
    } else {
        u - 0x1_0000
    }
}

/// Whether `m` holds the `n` elements that start at `off`.
pub open spec fn elements_are(
    m: MatrixData,
    matrix_type: u32,
    data: Seq<u8>,
    off: int,
    n: int,
) -> bool {
    match m {
        MatrixData::Int(v) => {
            &&& matrix_type == 0
            &&& v@.len() == n
            &&& forall|i: int|
                0 <= i < n ==> #[trigger] v@[i] == signed16(le16(data, off + 2 * i))
        },
        MatrixData::Uint(v) => {
            &&& matrix_type == 1 || matrix_type == 2 || matrix_type == 5 || matrix_type == 6
            &&& v@.len() == n
            &&& forall|i: int|
                0 <= i < n ==> #[trigger] v@[i] == (if matrix_type == 5 {
                    data[off + i] as u32
                } else if matrix_type == 6 {
                    le16(data, off + 2 * i) as u32
                } else {
                    le32(data, off + 4 * i)
                })
        },
        MatrixData::Float(v) => {
            &&& matrix_type == 3
            &&& v@.len() == n
            &&& forall|i: int| 0 <= i < n ==> #[trigger] v@[i] == le32(data, off + 4 * i)
        },
    }
}

/// Whether `v` is dimension `i` of the matrix.
pub open spec fn dim_is(v: CamfDim, data: Seq<u8>, value: Seq<u8>, i: int) -> bool {
    &&& v.size == dim_size(value, i)
    &&& v.name_offset == dim_name_at(value, i)
    &&& v.n == le32(value, 20 + 12 * i)
    &&& v.name@ == cstr(data, dim_name_at(value, i) as int)
}

/// Whether `m` is the matrix that `value` describes.
pub open spec fn matrix_is(m: CamfMatrix, data: Seq<u8>, value: Seq<u8>) -> bool {
    &&& m.matrix_type == le32(value, 0)
    &&& m.matrix_data_off == le32(value, 8)
    &&& m.dims@.len() == le32(value, 4)
    &&& forall|i: int| 0 <= i < m.dims@.len() ==> dim_is(#[trigger] m.dims@[i], data, value, i)
    &&& m.element_size == element_size(m.matrix_type)
    &&& m.elements == dim_product(value, m.dims@.len())
    &&& m.used_space == data.len() - m.matrix_data_off
    &&& elements_are(
        m.decoded,
        m.matrix_type,
        data,
        m.matrix_data_off as int,
        m.elements as int,
    )
}

/// What is wrong with the value of an entry.
pub open spec fn value_error(id: u32, data: Seq<u8>, value_offset: int) -> Option<Error> {
    let value = data.subrange(value_offset, data.len() as int);
    if value_offset > data.len() {
        Some(Error::InvalidData("CAMF value outside entry"))
    } else if id == X3F_CMBT {
        text_error(value)
    } else if id == X3F_CMBP {
        property_error(data, value)
    } else if id == X3F_CMBM {
        matrix_error(data, value)
    } else {
        Some(Error::InvalidData("unknown CAMF entry type"))
    }
}

/// Whether `v` is the value of an entry.
pub open spec fn value_is(v: CamfValue, id: u32, data: Seq<u8>, value_offset: int) -> bool {
    let value = data.subrange(value_offset, data.len() as int);
    match v {
        CamfValue::Text { text_size, text } => {
            &&& id == X3F_CMBT
            &&& text_size == le32(value, 0)
            &&& text@ == cstr(value, 4)
        },
        CamfValue::Property { names, values } => {
            &&& id == X3F_CMBP
            &&& names@.len() == le32(value, 0)
            &&& values@.len() == le32(value, 0)
            &&& forall|i: int|
                0 <= i < names@.len() ==> #[trigger] names@[i]@ == cstr(
                    data,
                    property_name_at(value, i),
                )
            &&& forall|i: int|
                0 <= i < values@.len() ==> #[trigger] values@[i]@ == cstr(
                    data,
                    property_value_at(value, i),
                )
        },
        CamfValue::Matrix(m) => id == X3F_CMBM && matrix_is(m, data, value),
    }
}

proof fn lemma_properties_error_stays(data: Seq<u8>, value: Seq<u8>, j: nat, k: nat)
    requires
        j <= k,
        properties_error(data, value, j) is Some,
    ensures
        properties_error(data, value, k) == properties_error(data, value, j),
    decreases k - j,
{
    if j < k {
        lemma_properties_error_stays(data, value, j, (k - 1) as nat);
    }
}

proof fn lemma_dims_error_stays(data: Seq<u8>, value: Seq<u8>, j: nat, k: nat)
    requires
        j <= k,
        dims_error(data, value, j) is Some,
    ensures
        dims_error(data, value, k) == dims_error(data, value, j),
    decreases k - j,
{
    if j < k {
        lemma_dims_error_stays(data, value, j, (k - 1) as nat);
    }
}

/// Reads a list of properties.
fn read_properties(data: &[u8], value: &[u8], control: Control<'_>) -> (r: Result<
    (Vec<Vec<u8>>, Vec<Vec<u8>>),
    Error,
>)
    ensures
        match r {
            Ok((names, values)) => {
                &&& property_error(data@, value@) is None
                &&& names@.len() == le32(value@, 0)
                &&& values@.len() == le32(value@, 0)
                &&& forall|i: int|
                    0 <= i < names@.len() ==> #[trigger] names@[i]@ == cstr(
                        data@,
                        property_name_at(value@, i),
                    )
                &&& forall|i: int|
                    0 <= i < values@.len() ==> #[trigger] values@[i]@ == cstr(
                        data@,
                        property_value_at(value@, i),
                    )
                &&& names@.len() > 0 ==> control.may_read(false)
            },
            Err(Error::Cancelled) => control.may_read(true),
            Err(e) => property_error(data@, value@) == Some(e),
        },
{
    let n: usize = u32_at(value, 0)? as usize;
    let string_offset: usize = u32_at(value, 4)? as usize;
    let table: usize = checked_size(n, 8)?;
    bytes_at(value, 8, table)?;
    let mut names: Vec<Vec<u8>> = Vec::new();
    let mut values: Vec<Vec<u8>> = Vec::new();
    let mut i: usize = 0;
    while i < n
        invariant
            i <= n,
            n == le32(value@, 0),
            string_offset == le32(value@, 4),
            n * 8 <= MAX_ALLOCATION,
            8 + n * 8 <= value@.len(),
            property_error(data@, value@) == properties_error(data@, value@, n as nat),
            properties_error(data@, value@, i as nat) is None,
            names@.len() == i,
            values@.len() == i,
            forall|k: int|
                0 <= k < i ==> #[trigger] names@[k]@ == cstr(data@, property_name_at(value@, k)),
            forall|k: int|
                0 <= k < i ==> #[trigger] values@[k]@ == cstr(data@, property_value_at(value@, k)),
            i > 0 ==> control.may_read(false),
        decreases n - i,
    {
        control.check()?;
        proof {
            if properties_error(data@, value@, (i + 1) as nat) is Some {
                lemma_properties_error_stays(data@, value@, (i + 1) as nat, n as nat);
            }
        }
        let name: usize = match string_offset.checked_add(u32_at(value, 8 + 8 * i)? as usize) {
            Some(name) => name,
            None => {
                return Err(Error::Allocation);
            },
        };
        let val: usize = match string_offset.checked_add(u32_at(value, 12 + 8 * i)? as usize) {
            Some(val) => val,
            None => {
                return Err(Error::Allocation);
            },
        };
        let name_text: Vec<u8> = cstr_at(data, name)?;
        let value_text: Vec<u8> = cstr_at(data, val)?;
        names.push(name_text);
        values.push(value_text);
        i = i + 1;
    }
    Ok((names, values))
}

/// Reads the dimensions of a matrix, and counts the elements that they span.
fn read_dims(data: &[u8], value: &[u8], dims: usize) -> (r: Result<(Vec<CamfDim>, usize), Error>)
    requires
        dims * 12 <= MAX_ALLOCATION,
        12 + dims * 12 <= value@.len(),
    ensures
        !is_cancelled(r),
        match r {
            Ok((list, elements)) => {
                &&& dims_error(data@, value@, dims as nat) is None
                &&& list@.len() == dims
                &&& forall|i: int|
                    0 <= i < dims ==> dim_is(#[trigger] list@[i], data@, value@, i)
                &&& elements == dim_product(value@, dims as nat)
                &&& elements <= MAX_ALLOCATION
            },
            Err(e) => dims_error(data@, value@, dims as nat) == Some(e),
        },
{
    let mut list: Vec<CamfDim> = Vec::new();
    let mut elements: usize = 1;
    let mut i: usize = 0;
    while i < dims
        invariant
            i <= dims,
            dims * 12 <= MAX_ALLOCATION,
            12 + dims * 12 <= value@.len(),
            dims_error(data@, value@, i as nat) is None,
            list@.len() == i,
            forall|k: int| 0 <= k < i ==> dim_is(#[trigger] list@[k], data@, value@, k),
            elements == dim_product(value@, i as nat),
            elements <= MAX_ALLOCATION,
        decreases dims - i,
    {
        proof {
            if dims_error(data@, value@, (i + 1) as nat) is Some {
                lemma_dims_error_stays(data@, value@, (i + 1) as nat, dims as nat);
            }
        }
        let size: u32 = u32_at(value, 12 + 12 * i)?;
        let name_offset: u32 = u32_at(value, 16 + 12 * i)?;
        let n: u32 = u32_at(value, 20 + 12 * i)?;
        let name: Vec<u8> = cstr_at(data, name_offset as usize)?;
        elements = checked_size(elements, size as usize)?;
        list.push(CamfDim { size, name_offset, n, name });
        i = i + 1;
    }
    Ok((list, elements))
}

/// Decodes the `n` elements of a matrix that start at `off`.
fn read_elements(
    data: &[u8],
    matrix_type: u32,
    off: usize,
    n: usize,
    control: Control<'_>,
) -> (r: Result<MatrixData, Error>)
    requires
        element_size(matrix_type) != 0,
        off + n * element_size(matrix_type) <= data.len(),
    ensures
        match r {
            Ok(m) => {
                &&& elements_are(m, matrix_type, data@, off as int, n as int)
                &&& n > 0 ==> control.may_read(false)
            },
            Err(Error::Cancelled) => control.may_read(true),
            Err(_) => false,
        },
{
    if matrix_type == 0 {
        let mut v: Vec<i32> = Vec::with_capacity(n);
        while v.len() < n
            invariant
                v@.len() <= n,
                off + n * 2 <= data.len(),
                forall|i: int|
                    0 <= i < v@.len() ==> #[trigger] v@[i] == signed16(le16(data@, off + 2 * i)),
                v@.len() > 0 ==> control.may_read(false),
            decreases n - v@.len(),
        {
            let i: usize = v.len();
            if i % 4096 == 0 {
                control.check()?;
            }
            let u: u16 = data[off + 2 * i] as u16 + data[off + 2 * i + 1] as u16 * 0x100;
            if u < 0x8000 {
                v.push(u as i32);
            } else {
                v.push(u as i32 - 0x1_0000);
            }
        }
        return Ok(MatrixData::Int(v));
    }
    let mut v: Vec<u32> = Vec::with_capacity(n);
    while v.len() < n
        invariant
            v@.len() <= n,
            matrix_type != 0,
            element_size(matrix_type) != 0,
            off + n * element_size(matrix_type) <= data.len(),
            forall|i: int|
                0 <= i < v@.len() ==> #[trigger] v@[i] == (if matrix_type == 5 {
                    data@[off + i] as u32
                } else if matrix_type == 6 {
                    le16(data@, off + 2 * i) as u32
                } else {
                    le32(data@, off + 4 * i)
                }),
            v@.len() > 0 ==> control.may_read(false),
        decreases n - v@.len(),
    {
        let i: usize = v.len();
        if i % 4096 == 0 {
            control.check()?;
        }
        if matrix_type == 5 {
            v.push(data[off + i] as u32);
        } else if matrix_type == 6 {
            v.push(data[off + 2 * i] as u32 + data[off + 2 * i + 1] as u32 * 0x100);
        } else {
            let p: usize = off + 4 * i;
            v.push(
                data[p] as u32 + data[p + 1] as u32 * 0x100 + data[p + 2] as u32 * 0x1_0000
                    + data[p + 3] as u32 * 0x100_0000,
            );
        }
    }
    if matrix_type == 3 {
        Ok(MatrixData::Float(v))
    } else {
        Ok(MatrixData::Uint(v))
    }
}

/// Reads a matrix.
fn read_matrix(data: &[u8], value: &[u8], control: Control<'_>) -> (r: Result<CamfMatrix, Error>)
    requires
        data@.len() <= u32::MAX,
    ensures
        match r {
            Ok(m) => {
                &&& matrix_error(data@, value@) is None
                &&& matrix_is(m, data@, value@)
                &&& m.elements > 0 ==> control.may_read(false)
            },
            Err(Error::Cancelled) => control.may_read(true),
            Err(e) => matrix_error(data@, value@) == Some(e),
        },
{
    let matrix_type: u32 = u32_at(value, 0)?;
    let matrix_dim: u32 = u32_at(value, 4)?;
    let matrix_data_off: u32 = u32_at(value, 8)?;
    let dims: usize = matrix_dim as usize;
    let table: usize = checked_size(dims, 12)?;
    bytes_at(value, 12, table)?;
    let size: usize = match matrix_type {
        0 | 6 => 2,
        1 | 2 | 3 => 4,
        5 => 1,
        _ => {
            return Err(Error::InvalidData("unknown CAMF matrix type"));
        },
    };
    checked_size(dims, DIM_SIZE)?;
    let (list, elements): (Vec<CamfDim>, usize) = read_dims(data, value, dims)?;
    let off: usize = matrix_data_off as usize;
    let bytes: usize = checked_size(elements, size)?;
    bytes_at(data, off, bytes)?;
    let unit: usize = if matrix_type == 3 {
        8
    } else {
        4
    };
    checked_size(elements, unit)?;
    let decoded: MatrixData = read_elements(data, matrix_type, off, elements, control)?;
    Ok(
        CamfMatrix {
            matrix_type,
            matrix_data_off,
            dims: list,
            element_size: size as u32,
            elements: elements as u32,
            used_space: (data.len() - off) as u32,
            decoded,
        },
    )
}

/// Reads the value of an entry, which starts at `value_offset` of its bytes.
pub fn setup_camf_entry(
    id: u32,
    data: &[u8],
    value_offset: usize,
    control: Control<'_>,
) -> (r: Result<CamfValue, Error>)
    requires
        data@.len() <= u32::MAX,
    ensures
        match r {
            Ok(v) => {
                &&& value_error(id, data@, value_offset as int) is None
                &&& value_is(v, id, data@, value_offset as int)
                &&& (match v {
                    CamfValue::Text { .. } => false,
                    CamfValue::Property { names, .. } => names@.len() > 0,
                    CamfValue::Matrix(m) => m.elements > 0,
                }) ==> control.may_read(false)
            },
            Err(Error::Cancelled) => control.may_read(true),
            Err(e) => value_error(id, data@, value_offset as int) == Some(e),
        },
{
    if value_offset > data.len() {
        return Err(Error::InvalidData("CAMF value outside entry"));
    }
    let value: &[u8] = slice_subrange(data, value_offset, data.len());
    if id == X3F_CMBT {
        let text_size: u32 = u32_at(value, 0)?;
        bytes_at(value, 4, text_size as usize)?;
        let text: Vec<u8> = cstr_at(value, 4)?;
        Ok(CamfValue::Text { text_size, text })
    } else if id == X3F_CMBP {
        let (names, values): (Vec<Vec<u8>>, Vec<Vec<u8>>) = read_properties(data, value, control)?;
        Ok(CamfValue::Property { names, values })
    } else if id == X3F_CMBM {
        Ok(CamfValue::Matrix(read_matrix(data, value, control)?))
    } else {
        Err(Error::InvalidData("unknown CAMF entry type"))
    }
}

/// Whether all bytes from `offset` on are padding.
pub open spec fn only_zeros(data: Seq<u8>, offset: int) -> bool {
    forall|i: int| offset <= i < data.len() ==> #[trigger] data[i] == 0
}

/// Where the entries from `offset` on start: each ends where the next one
/// starts, and zeros after the last one are padding.
pub open spec fn entry_offsets(data: Seq<u8>, offset: int) -> Result<Seq<int>, Error>
    decreases data.len() - offset,
{
    let len = data.len() as int;
    let id = le32(data, offset);
    let size = le32(data, offset + 8) as int;
    if offset >= len || only_zeros(data, offset) {
        Ok(Seq::empty())
    } else if range_error(len, offset, 4) is Some {
        Err(range_error(len, offset, 4)->0)
    } else if id != X3F_CMBP && id != X3F_CMBT && id != X3F_CMBM {
        Err(Error::InvalidData("unknown CAMF entry signature"))
    } else if range_error(len, offset + 8, 4) is Some {
        Err(range_error(len, offset + 8, 4)->0)
    } else if size < 20 {
        Err(Error::InvalidData("invalid CAMF entry length"))
    } else if range_error(len, offset, size) is Some {
        Err(range_error(len, offset, size)->0)
    } else {
        match entry_offsets(data, offset + size) {
            Err(e) => Err(e),
            Ok(rest) => Ok(seq![offset] + rest),
        }
    }
}

/// The bytes of the entry at `offset`.
pub open spec fn entry_bytes(data: Seq<u8>, offset: int) -> Seq<u8> {
    data.subrange(offset, offset + le32(data, offset + 8))
}

/// What is wrong with an entry.
pub open spec fn entry_error(bytes: Seq<u8>) -> Option<Error> {
    let name = le32(bytes, 12) as int;
    let val = le32(bytes, 16) as int;
    if name < 20 || val < name || val > bytes.len() {
        Some(Error::InvalidData("invalid CAMF name/value offsets"))
    } else {
        first(
            cstr_error(bytes.take(val), name),
            value_error(le32(bytes, 0), bytes, val),
        )
    }
}

/// Whether `entry` is the entry that `bytes` holds.
pub open spec fn entry_is(entry: CamfEntry, bytes: Seq<u8>) -> bool {
    let name = le32(bytes, 12) as int;
    let val = le32(bytes, 16) as int;
    &&& entry.id == le32(bytes, 0)
    &&& entry.version == le32(bytes, 4)
    &&& entry.entry_size == le32(bytes, 8)
    &&& entry.name_offset == name
    &&& entry.value_offset == val
    &&& entry.name@ == cstr(bytes.take(val), name)
    &&& entry.name_size == val - name
    &&& entry.value_size == bytes.len() - val
    &&& value_is(entry.value, entry.id, bytes, val)
}

/// The first error among the first `k` entries.
pub open spec fn entries_error(data: Seq<u8>, offsets: Seq<int>, k: nat) -> Option<Error>
    decreases k,
{
    if k == 0 {
        None
    } else {
        first(
            entries_error(data, offsets, (k - 1) as nat),
            entry_error(entry_bytes(data, offsets[k - 1])),
        )
    }
}

/// What is wrong with the table of entries.
pub open spec fn camf_error(data: Seq<u8>) -> Option<Error> {
    if data.len() == 0 {
        Some(Error::InvalidData("empty CAMF"))
    } else {
        match entry_offsets(data, 0) {
            Err(e) => Some(e),
            Ok(offsets) => if offsets.len() * ENTRY_SIZE > MAX_ALLOCATION {
                Some(Error::Allocation)
            } else {
                entries_error(data, offsets, offsets.len())
            },
        }
    }
}

/// Whether `entries` is the table of entries.
pub open spec fn camf_is(entries: Seq<CamfEntry>, data: Seq<u8>) -> bool {
    let offsets = entry_offsets(data, 0)->Ok_0;
    &&& entries.len() == offsets.len()
    &&& forall|i: int|
        0 <= i < entries.len() ==> entry_is(
            #[trigger] entries[i],
            entry_bytes(data, offsets[i]),
        )
}

proof fn lemma_entries_error_stays(data: Seq<u8>, offsets: Seq<int>, j: nat, k: nat)
    requires
        j <= k,
        entries_error(data, offsets, j) is Some,
    ensures
        entries_error(data, offsets, k) == entries_error(data, offsets, j),
    decreases k - j,
{
    if j < k {
        lemma_entries_error_stays(data, offsets, j, (k - 1) as nat);
    }
}

/// Whether all bytes from `offset` on are zero.
fn is_padding(data: &[u8], offset: usize) -> (r: bool)
    requires
        offset <= data@.len(),
    ensures
        r == only_zeros(data@, offset as int),
{
    let mut i: usize = offset;
    while i < data.len()
        invariant
            offset <= i <= data@.len(),
            forall|k: int| offset <= k < i ==> #[trigger] data@[k] == 0,
        decreases data@.len() - i,
    {
        if data[i] != 0 {
            return false;
        }
        i = i + 1;
    }
    true
}

/// Whether an entry lies within the section and has room for its header.
pub open spec fn is_entry_start(data: Seq<u8>, offset: int) -> bool {
    &&& 0 <= offset
    &&& offset + 20 <= data.len()
    &&& 20 <= le32(data, offset + 8)
    &&& offset + le32(data, offset + 8) <= data.len()
}

/// Finds the entries of a section.
fn find_entries(data: &[u8], control: Control<'_>) -> (r: Result<Vec<usize>, Error>)
    requires
        data@.len() <= MAX_ALLOCATION,
    ensures
        match r {
            Ok(v) => {
                &&& entry_offsets(data@, 0) == Ok::<Seq<int>, Error>(
                    v@.map_values(|o: usize| o as int),
                )
                &&& forall|i: int|
                    0 <= i < v@.len() ==> is_entry_start(data@, #[trigger] v@[i] as int)
                &&& data@.len() > 0 ==> control.may_read(false)
            },
            Err(Error::Cancelled) => control.may_read(true),
            Err(e) => entry_offsets(data@, 0) == Err::<Seq<int>, Error>(e),
        },
{
    let mut found: Vec<usize> = Vec::new();
    let mut offset: usize = 0;
    let ghost to_int = |o: usize| o as int;
    assert(entry_offsets(data@, 0) is Ok ==> entry_offsets(data@, 0)->Ok_0
        =~= found@.map_values(to_int) + entry_offsets(data@, 0)->Ok_0);
    while offset < data.len()
        invariant
            offset <= data@.len() <= MAX_ALLOCATION,
            to_int == (|o: usize| o as int),
            forall|i: int|
                0 <= i < found@.len() ==> is_entry_start(data@, #[trigger] found@[i] as int),
            match entry_offsets(data@, offset as int) {
                Err(e) => entry_offsets(data@, 0) == Err::<Seq<int>, Error>(e),
                Ok(rest) => entry_offsets(data@, 0) == Ok::<Seq<int>, Error>(
                    found@.map_values(to_int) + rest,
                ),
            },
            offset > 0 ==> control.may_read(false),
        decreases data@.len() - offset,
    {
        control.check()?;
        if is_padding(data, offset) {
            assert(found@.map_values(to_int) + Seq::<int>::empty() =~= found@.map_values(to_int));
            return Ok(found);
        }
        let id: u32 = u32_at(data, offset)?;
        if id != X3F_CMBP && id != X3F_CMBT && id != X3F_CMBM {
            return Err(Error::InvalidData("unknown CAMF entry signature"));
        }
        let size: usize = u32_at(data, offset + 8)? as usize;
        if size < 20 {
            return Err(Error::InvalidData("invalid CAMF entry length"));
        }
        bytes_at(data, offset, size)?;
        let ghost before = found@;
        found.push(offset);
        proof {
            if entry_offsets(data@, offset + size) is Ok {
                let rest = entry_offsets(data@, offset + size)->Ok_0;
                assert(before.map_values(to_int) + (seq![offset as int] + rest)
                    =~= found@.map_values(to_int) + rest);
            }
        }
        offset = offset + size;
    }
    assert(found@.map_values(to_int) + Seq::<int>::empty() =~= found@.map_values(to_int));
    Ok(found)
}

/// Reads the entry that `bytes` holds.
fn read_entry(bytes: &[u8], control: Control<'_>) -> (r: Result<CamfEntry, Error>)
    requires
        20 <= bytes@.len() <= u32::MAX,
    ensures
        match r {
            Ok(entry) => entry_error(bytes@) is None && entry_is(entry, bytes@),
            Err(Error::Cancelled) => control.may_read(true),
            Err(e) => entry_error(bytes@) == Some(e),
        },
{
    let id: u32 = u32_at(bytes, 0)?;
    let version: u32 = u32_at(bytes, 4)?;
    let entry_size: u32 = u32_at(bytes, 8)?;
    let name_offset: u32 = u32_at(bytes, 12)?;
    let value_offset: u32 = u32_at(bytes, 16)?;
    let name_at: usize = name_offset as usize;
    let val: usize = value_offset as usize;
    if name_at < 20 || val < name_at || val > bytes.len() {
        return Err(Error::InvalidData("invalid CAMF name/value offsets"));
    }
    let head: &[u8] = slice_subrange(bytes, 0, val);
    assert(head@ =~= bytes@.take(val as int));
    let name: Vec<u8> = cstr_at(head, name_at)?;
    let value: CamfValue = setup_camf_entry(id, bytes, val, control)?;
    Ok(
        CamfEntry {
            id,
            version,
            entry_size,
            name_offset,
            value_offset,
            name,
            name_size: (val - name_at) as u32,
            value_size: (bytes.len() - val) as u32,
            value,
        },
    )
}

/// Reads the table of entries of a decoded section.
pub fn setup_camf(data: &[u8], control: Control<'_>) -> (r: Result<Vec<CamfEntry>, Error>)
    requires
        data@.len() <= MAX_ALLOCATION,
    ensures
        match r {
            Ok(entries) => {
                &&& camf_error(data@) is None
                &&& camf_is(entries@, data@)
                &&& control.may_read(false)
            },
            Err(Error::Cancelled) => control.may_read(true),
            Err(e) => camf_error(data@) == Some(e),
        },
{
    if data.len() == 0 {
        return Err(Error::InvalidData("empty CAMF"));
    }
    let found: Vec<usize> = find_entries(data, control)?;
    let ghost offsets = entry_offsets(data@, 0)->Ok_0;
    checked_size(found.len(), ENTRY_SIZE)?;
    let mut entries: Vec<CamfEntry> = Vec::new();
    let mut i: usize = 0;
    while i < found.len()
        invariant
            i <= found@.len(),
            data@.len() <= MAX_ALLOCATION,
            offsets == found@.map_values(|o: usize| o as int),
            forall|k: int|
                0 <= k < found@.len() ==> is_entry_start(data@, #[trigger] found@[k] as int),
            camf_error(data@) == entries_error(data@, offsets, offsets.len()),
            entries_error(data@, offsets, i as nat) is None,
            entries@.len() == i,
            forall|k: int|
                0 <= k < i ==> entry_is(#[trigger] entries@[k], entry_bytes(data@, offsets[k])),
            control.may_read(false),
        decreases found@.len() - i,
    {
        control.check()?;
        let offset: usize = found[i];
        proof {
            assert(offsets[i as int] == offset);
            if entries_error(data@, offsets, (i + 1) as nat) is Some {
                lemma_entries_error_stays(data@, offsets, (i + 1) as nat, offsets.len());
            }
        }
        let size: usize = u32_at(data, offset + 8)? as usize;
        let bytes: &[u8] = slice_subrange(data, offset, offset + size);
        assert(bytes@ =~= entry_bytes(data@, offset as int));
        let entry: CamfEntry = read_entry(bytes, control)?;
        entries.push(entry);
        i = i + 1;
    }
    Ok(entries)
}

proof fn lemma_product(m: CamfMatrix, data: Seq<u8>, value: Seq<u8>, k: nat)
    requires
        matrix_is(m, data, value),
        k <= m.dims@.len(),
    ensures
        dims_product(m.dims@, k) == dim_product(value, k),
    decreases k,
{
    if k > 0 {
        lemma_product(m, data, value, (k - 1) as nat);
        assert(dim_is(m.dims@[k - 1], data, value, k - 1));
    }
}

/// The entries that are read are well-formed.
pub proof fn lemma_entries_inv(entries: Seq<CamfEntry>, data: Seq<u8>)
    requires
        camf_is(entries, data),
    ensures
        forall|i: int| 0 <= i < entries.len() ==> (#[trigger] entries[i]).inv(),
{
    let offsets = entry_offsets(data, 0)->Ok_0;
    assert forall|i: int| 0 <= i < entries.len() implies (#[trigger] entries[i]).inv() by {
        let bytes = entry_bytes(data, offsets[i]);
        assert(entry_is(entries[i], bytes));
        if let CamfValue::Matrix(m) = entries[i].value {
            let val = le32(bytes, 16) as int;
            lemma_product(m, bytes, bytes.subrange(val, bytes.len() as int), m.dims@.len());
        }
    }
}

/// The entries from `offset` on stand one after the other.
proof fn lemma_entries_in_order(data: Seq<u8>, offset: int, i: int, j: int)
    requires
        0 <= offset,
        entry_offsets(data, offset) is Ok,
        0 <= i < entry_offsets(data, offset)->Ok_0.len(),
        i < j < entry_offsets(data, offset)->Ok_0.len() || j == -1,
    ensures
        ({
            let offsets = entry_offsets(data, offset)->Ok_0;
            let size = le32(data, offsets[i] + 8);
            &&& offset <= offsets[i]
            &&& 20 <= size
            &&& offsets[i] + size <= data.len()
            &&& j >= 0 ==> offsets[i] + size <= offsets[j]
        }),
    decreases data.len() - offset,
{
    let size = le32(data, offset + 8) as int;
    let rest = entry_offsets(data, offset + size)->Ok_0;
    let offsets = entry_offsets(data, offset)->Ok_0;
    assert(offsets == seq![offset] + rest);
    if i > 0 {
        assert(offsets[i] == rest[i - 1]);
        if j >= 0 {
            assert(offsets[j] == rest[j - 1]);
        }
        lemma_entries_in_order(
            data,
            offset + size,
            i - 1,
            if j >= 0 {
                j - 1
            } else {
                -1
            },
        );
    } else if j >= 0 {
        assert(offsets[j] == rest[j - 1]);
        lemma_entries_in_order(data, offset + size, j - 1, -1);
    }
}

/// Every entry lies within the section, and none overlaps with a later one.
pub proof fn law_entries_do_not_overlap(data: Seq<u8>, entries: Seq<CamfEntry>, i: int, j: int)
    requires
        camf_error(data) is None,
        camf_is(entries, data),
        0 <= i < j < entries.len(),
    ensures
        ({
            let offsets = entry_offsets(data, 0)->Ok_0;
            &&& 0 <= offsets[i]
            &&& offsets[i] + entries[i].entry_size <= offsets[j]
            &&& offsets[j] + entries[j].entry_size <= data.len()
        }),
{
    let offsets = entry_offsets(data, 0)->Ok_0;
    lemma_entries_in_order(data, 0, i, j);
    lemma_entries_in_order(data, 0, j, -1);
    assert(entry_is(entries[i], entry_bytes(data, offsets[i])));
    assert(entry_is(entries[j], entry_bytes(data, offsets[j])));
    assert(le32(entry_bytes(data, offsets[i]), 8) == le32(data, offsets[i] + 8));
    assert(le32(entry_bytes(data, offsets[j]), 8) == le32(data, offsets[j] + 8));
}

/// An entry as it is written: what its header says, and its name.
pub ghost struct WrittenEntry {
    pub id: u32,
    pub version: u32,
    pub size: u32,
    pub name_offset: u32,
    pub value_offset: u32,
    pub name: Seq<u8>,
}

impl WrittenEntry {
    /// Whether the entry stands at an offset of a section: five numbers, one after
    /// the other, and the name, before the value.
    pub open spec fn stands_at(self, data: Seq<u8>, at: int) -> bool {
        &&& stands_at(data, at, written32(self.id))
        &&& stands_at(data, at + 4, written32(self.version))
        &&& stands_at(data, at + 8, written32(self.size))
        &&& stands_at(data, at + 12, written32(self.name_offset))
        &&& stands_at(data, at + 16, written32(self.value_offset))
        &&& stands_at(data, at + self.name_offset, written_str(self.name))
        &&& self.name_offset + self.name.len() < self.value_offset <= self.size
        &&& 20 <= self.name_offset
        &&& at + self.size <= data.len()
        &&& forall|i: int| 0 <= i < self.name.len() ==> #[trigger] self.name[i] != 0
        &&& self.id == X3F_CMBP || self.id == X3F_CMBT || self.id == X3F_CMBM
    }
}

/// What stands in a part of the bytes stands in them.
proof fn lemma_stands_in_part(data: Seq<u8>, at: int, end: int, offset: int, part: Seq<u8>)
    requires
        0 <= at <= end <= data.len(),
        0 <= offset,
        at + offset + part.len() <= end,
        stands_at(data, at + offset, part),
    ensures
        stands_at(data.subrange(at, end), offset, part),
{
    let inner = data.subrange(at, end);
    assert(inner.subrange(offset, offset + part.len()) =~= data.subrange(
        at + offset,
        at + offset + part.len(),
    ));
}

/// Where the entries of a section start.
proof fn lemma_entry_offsets(
    data: Seq<u8>,
    list: Seq<WrittenEntry>,
    starts: spec_fn(int) -> int,
    i: nat,
)
    requires
        i <= list.len(),
        data.len() <= MAX_ALLOCATION,
        0 <= starts(i as int) <= data.len(),
        forall|j: int|
            0 <= j < list.len() ==> #[trigger] list[j].stands_at(data, starts(j)) && starts(j + 1)
                == starts(j) + list[j].size,
        only_zeros(data, starts(list.len() as int)),
    ensures
        entry_offsets(data, starts(i as int)) == Ok::<Seq<int>, Error>(
            Seq::new((list.len() - i) as nat, |j: int| starts(i + j)),
        ),
    decreases list.len() - i,
{
    let at = starts(i as int);
    let all = Seq::new((list.len() - i) as nat, |j: int| starts(i + j));
    if i < list.len() {
        let e = list[i as int];
        assert(e.stands_at(data, starts(i as int)));
        law_numbers_are_read_back(data, at, e.id);
        law_numbers_are_read_back(data, at + 8, e.size);
        assert(!only_zeros(data, at)) by {
            if only_zeros(data, at) {
                assert(data[at] == 0 && data[at + 1] == 0 && data[at + 2] == 0 && data[at + 3]
                    == 0);
                assert(le32(data, at) == 0);
            }
        }
        lemma_entry_offsets(data, list, starts, i + 1);
        let rest = Seq::new((list.len() - (i + 1)) as nat, |j: int| starts((i + 1) + j));
        assert(starts(i as int + 1) == at + e.size);
        assert(seq![at] + rest =~= all);
    } else {
        assert(all =~= Seq::empty());
    }
}

/// A section that is made up of entries, one after the other and then padding, is
/// read as those entries, with their numbers and names.
pub proof fn law_entries_are_read_back(
    data: Seq<u8>,
    entries: Seq<CamfEntry>,
    list: Seq<WrittenEntry>,
    starts: spec_fn(int) -> int,
    i: int,
)
    requires
        0 < data.len() <= MAX_ALLOCATION,
        camf_is(entries, data),
        starts(0) == 0,
        forall|j: int|
            0 <= j < list.len() ==> #[trigger] list[j].stands_at(data, starts(j)) && starts(j + 1)
                == starts(j) + list[j].size,
        only_zeros(data, starts(list.len() as int)),
        0 <= i < list.len(),
    ensures
        entries.len() == list.len(),
        entries[i].id == list[i].id,
        entries[i].version == list[i].version,
        entries[i].entry_size == list[i].size,
        entries[i].name@ == list[i].name,
        entries[i].value_offset == list[i].value_offset,
        entries[i].value_size == list[i].size - list[i].value_offset,
        value_is(
            entries[i].value,
            list[i].id,
            data.subrange(starts(i), starts(i) + list[i].size),
            list[i].value_offset as int,
        ),
{
    lemma_entry_offsets(data, list, starts, 0);
    let offsets = entry_offsets(data, 0)->Ok_0;
    assert(offsets.len() == list.len());
    let e = list[i];
    let at = starts(i);
    assert(e.stands_at(data, starts(i)));
    assert(offsets[i] == starts(0 + i));
    assert(entry_is(entries[i], entry_bytes(data, offsets[i])));
    law_numbers_are_read_back(data, at + 8, e.size);
    let bytes = entry_bytes(data, at);
    assert(bytes == data.subrange(at, at + e.size));
    lemma_stands_in_part(data, at, at + e.size, 0, written32(e.id));
    lemma_stands_in_part(data, at, at + e.size, 4, written32(e.version));
    lemma_stands_in_part(data, at, at + e.size, 8, written32(e.size));
    lemma_stands_in_part(data, at, at + e.size, 12, written32(e.name_offset));
    lemma_stands_in_part(data, at, at + e.size, 16, written32(e.value_offset));
    law_numbers_are_read_back(bytes, 0, e.id);
    law_numbers_are_read_back(bytes, 4, e.version);
    law_numbers_are_read_back(bytes, 8, e.size);
    law_numbers_are_read_back(bytes, 12, e.name_offset);
    law_numbers_are_read_back(bytes, 16, e.value_offset);
    let head = data.subrange(at, at + e.value_offset);
    assert(head =~= bytes.take(e.value_offset as int));
    lemma_stands_in_part(
        data,
        at,
        at + e.value_offset,
        e.name_offset as int,
        written_str(e.name),
    );
    law_strings_are_read_back(head, e.name_offset as int, e.name);
}

/// A text that is written as the value of an entry, behind its size, is read from it.
pub proof fn law_texts_are_read_back(
    v: CamfValue,
    bytes: Seq<u8>,
    at: int,
    size: u32,
    text: Seq<u8>,
)
    requires
        value_is(v, X3F_CMBT, bytes, at),
        0 <= at <= bytes.len(),
        stands_at(bytes, at, written32(size)),
        stands_at(bytes, at + 4, written_str(text)),
        forall|i: int| 0 <= i < text.len() ==> #[trigger] text[i] != 0,
    ensures
        v matches CamfValue::Text { text_size, text: t } && text_size == size && t@ == text,
{
    let end = bytes.len() as int;
    lemma_stands_in_part(bytes, at, end, 0, written32(size));
    lemma_stands_in_part(bytes, at, end, 4, written_str(text));
    let value = bytes.subrange(at, end);
    law_numbers_are_read_back(value, 0, size);
    law_strings_are_read_back(value, 4, text);
}

/// A list of properties is read as it is written: their number, where the strings
/// start in the entry, and for each property where, from there, its name and its
/// value stand.
pub proof fn law_properties_are_read_back(
    v: CamfValue,
    bytes: Seq<u8>,
    at: int,
    count: u32,
    start: u32,
    i: int,
    name_at: u32,
    value_at: u32,
    name: Seq<u8>,
    value: Seq<u8>,
)
    requires
        value_is(v, X3F_CMBP, bytes, at),
        0 <= at <= bytes.len(),
        0 <= i < count,
        stands_at(bytes, at, written32(count)),
        stands_at(bytes, at + 4, written32(start)),
        stands_at(bytes, at + 8 + 8 * i, written32(name_at)),
        stands_at(bytes, at + 12 + 8 * i, written32(value_at)),
        stands_at(bytes, start + name_at, written_str(name)),
        stands_at(bytes, start + value_at, written_str(value)),
        forall|k: int| 0 <= k < name.len() ==> #[trigger] name[k] != 0,
        forall|k: int| 0 <= k < value.len() ==> #[trigger] value[k] != 0,
    ensures
        v matches CamfValue::Property { names, values } && names@.len() == count && values@.len()
            == count && names@[i]@ == name && values@[i]@ == value,
{
    let end = bytes.len() as int;
    let inner = bytes.subrange(at, end);
    lemma_stands_in_part(bytes, at, end, 0, written32(count));
    lemma_stands_in_part(bytes, at, end, 4, written32(start));
    lemma_stands_in_part(bytes, at, end, 8 + 8 * i, written32(name_at));
    lemma_stands_in_part(bytes, at, end, 12 + 8 * i, written32(value_at));
    law_numbers_are_read_back(inner, 0, count);
    law_numbers_are_read_back(inner, 4, start);
    law_numbers_are_read_back(inner, 8 + 8 * i, name_at);
    law_numbers_are_read_back(inner, 12 + 8 * i, value_at);
    law_strings_are_read_back(bytes, start + name_at, name);
    law_strings_are_read_back(bytes, start + value_at, value);
}

/// A dimension of a matrix is read as it is written: its size, where in the entry its
/// name stands, and its number.
pub proof fn law_dimensions_are_read_back(
    v: CamfValue,
    bytes: Seq<u8>,
    at: int,
    dims: u32,
    i: int,
    size: u32,
    name_at: u32,
    n: u32,
    name: Seq<u8>,
)
    requires
        value_is(v, X3F_CMBM, bytes, at),
        0 <= at <= bytes.len(),
        0 <= i < dims,
        stands_at(bytes, at + 4, written32(dims)),
        stands_at(bytes, at + 12 + 12 * i, written32(size)),
        stands_at(bytes, at + 16 + 12 * i, written32(name_at)),
        stands_at(bytes, at + 20 + 12 * i, written32(n)),
        stands_at(bytes, name_at as int, written_str(name)),
        forall|k: int| 0 <= k < name.len() ==> #[trigger] name[k] != 0,
    ensures
        v matches CamfValue::Matrix(m) && m.dims@.len() == dims && m.dims@[i].size == size
            && m.dims@[i].n == n && m.dims@[i].name@ == name,
{
    let end = bytes.len() as int;
    let inner = bytes.subrange(at, end);
    lemma_stands_in_part(bytes, at, end, 4, written32(dims));
    lemma_stands_in_part(bytes, at, end, 12 + 12 * i, written32(size));
    lemma_stands_in_part(bytes, at, end, 16 + 12 * i, written32(name_at));
    lemma_stands_in_part(bytes, at, end, 20 + 12 * i, written32(n));
    law_numbers_are_read_back(inner, 4, dims);
    law_numbers_are_read_back(inner, 12 + 12 * i, size);
    law_numbers_are_read_back(inner, 16 + 12 * i, name_at);
    law_numbers_are_read_back(inner, 20 + 12 * i, n);
    law_strings_are_read_back(bytes, name_at as int, name);
    let m = v->Matrix_0;
    assert(dim_is(m.dims@[i], bytes, inner, i));
}

/// A number of a matrix is read as it is written, by the type of the matrix: signed or
/// unsigned 16-bit numbers, 32-bit numbers, the bits of real numbers, or bytes. There
/// are as many as the dimensions span together.
pub proof fn law_matrix_numbers_are_read_back(
    v: CamfValue,
    bytes: Seq<u8>,
    at: int,
    matrix_type: u32,
    start: u32,
    i: int,
    short: u16,
    long: u32,
)
    requires
        value_is(v, X3F_CMBM, bytes, at),
        0 <= at <= bytes.len(),
        stands_at(bytes, at, written32(matrix_type)),
        stands_at(bytes, at + 8, written32(start)),
        0 <= i < v->Matrix_0.decoded.len(),
        matrix_type == 0 || matrix_type == 6 ==> stands_at(
            bytes,
            start + 2 * i,
            written16(short),
        ),
        matrix_type == 1 || matrix_type == 2 || matrix_type == 3 ==> stands_at(
            bytes,
            start + 4 * i,
            written32(long),
        ),
    ensures
        ({
            let m = v->Matrix_0;
            &&& v is Matrix
            &&& m.matrix_type == matrix_type
            &&& m.decoded.len() == dims_product(m.dims@, m.dims@.len())
            &&& match m.decoded {
                MatrixData::Int(list) => matrix_type == 0 && list@[i] == (if short < 0x8000 {
                    short as int
                } else {
                    short - 0x1_0000
                }),
                MatrixData::Float(list) => matrix_type == 3 && list@[i] == long,
                MatrixData::Uint(list) => {
                    ||| matrix_type == 5 && list@[i] == bytes[start + i]
                    ||| matrix_type == 6 && list@[i] == short
                    ||| (matrix_type == 1 || matrix_type == 2) && list@[i] == long
                },
            }
        }),
{
    let end = bytes.len() as int;
    let inner = bytes.subrange(at, end);
    lemma_stands_in_part(bytes, at, end, 0, written32(matrix_type));
    lemma_stands_in_part(bytes, at, end, 8, written32(start));
    law_numbers_are_read_back(inner, 0, matrix_type);
    law_numbers_are_read_back(inner, 8, start);
    let m = v->Matrix_0;
    lemma_product(m, bytes, inner, m.dims@.len());
    if matrix_type == 0 || matrix_type == 6 {
        law_short_numbers_are_read_back(bytes, start + 2 * i, short);
    }
    if matrix_type == 1 || matrix_type == 2 || matrix_type == 3 {
        law_numbers_are_read_back(bytes, start + 4 * i, long);
    }
}

/// A section that is made up of entries, one after the other and then padding, is
/// refused only for the value of one of them, or for having too many.
pub proof fn law_written_entries_are_accepted(
    data: Seq<u8>,
    list: Seq<WrittenEntry>,
    starts: spec_fn(int) -> int,
)
    requires
        0 < data.len() <= MAX_ALLOCATION,
        list.len() * 160 <= MAX_ALLOCATION,
        starts(0) == 0,
        forall|j: int|
            0 <= j < list.len() ==> #[trigger] list[j].stands_at(data, starts(j)) && starts(j + 1)
                == starts(j) + list[j].size,
        only_zeros(data, starts(list.len() as int)),
        forall|j: int|
            0 <= j < list.len() ==> value_error(
                (#[trigger] list[j]).id,
                data.subrange(starts(j), starts(j) + list[j].size),
                list[j].value_offset as int,
            ) is None,
    ensures
        camf_error(data) is None,
{
    lemma_entry_offsets(data, list, starts, 0);
    let offsets = entry_offsets(data, 0)->Ok_0;
    lemma_no_entry_error(data, list, starts, offsets, list.len());
}

proof fn lemma_no_entry_error(
    data: Seq<u8>,
    list: Seq<WrittenEntry>,
    starts: spec_fn(int) -> int,
    offsets: Seq<int>,
    k: nat,
)
    requires
        k <= list.len(),
        offsets == Seq::new(list.len(), |j: int| starts(0 + j)),
        forall|j: int|
            0 <= j < list.len() ==> #[trigger] list[j].stands_at(data, starts(j)) && starts(j + 1)
                == starts(j) + list[j].size,
        forall|j: int|
            0 <= j < list.len() ==> value_error(
                (#[trigger] list[j]).id,
                data.subrange(starts(j), starts(j) + list[j].size),
                list[j].value_offset as int,
            ) is None,
    ensures
        entries_error(data, offsets, k) is None,
    decreases k,
{
    if k > 0 {
        lemma_no_entry_error(data, list, starts, offsets, (k - 1) as nat);
        let i = k - 1;
        let e = list[i];
        let at = starts(i);
        assert(e.stands_at(data, starts(i)));
        assert(offsets[i] == starts(0 + i));
        law_numbers_are_read_back(data, at + 8, e.size);
        let bytes = entry_bytes(data, at);
        assert(bytes == data.subrange(at, at + e.size));
        lemma_stands_in_part(data, at, at + e.size, 0, written32(e.id));
        lemma_stands_in_part(data, at, at + e.size, 12, written32(e.name_offset));
        lemma_stands_in_part(data, at, at + e.size, 16, written32(e.value_offset));
        law_numbers_are_read_back(bytes, 0, e.id);
        law_numbers_are_read_back(bytes, 12, e.name_offset);
        law_numbers_are_read_back(bytes, 16, e.value_offset);
        let head = data.subrange(at, at + e.value_offset);
        assert(head =~= bytes.take(e.value_offset as int));
        lemma_stands_in_part(
            data,
            at,
            at + e.value_offset,
            e.name_offset as int,
            written_str(e.name),
        );
        law_strings_are_read_back(head, e.name_offset as int, e.name);
    }
}

/// A text that is written as the value of an entry, behind a size that the entry has
/// room for, is accepted.
pub proof fn law_written_texts_are_accepted(bytes: Seq<u8>, at: int, size: u32, text: Seq<u8>)
    requires
        0 <= at,
        at + 4 + size <= bytes.len() <= usize::MAX,
        stands_at(bytes, at, written32(size)),
        stands_at(bytes, at + 4, written_str(text)),
        forall|i: int| 0 <= i < text.len() ==> #[trigger] text[i] != 0,
    ensures
        value_error(X3F_CMBT, bytes, at) is None,
{
    let end = bytes.len() as int;
    lemma_stands_in_part(bytes, at, end, 0, written32(size));
    lemma_stands_in_part(bytes, at, end, 4, written_str(text));
    let value = bytes.subrange(at, end);
    law_numbers_are_read_back(value, 0, size);
    law_strings_are_read_back(value, 4, text);
}

/// A list of properties is accepted if the entry has room for its numbers and holds the end
/// of the name and the value of each property where they say.
pub proof fn law_written_properties_are_accepted(
    bytes: Seq<u8>,
    at: int,
    count: u32,
    start: u32,
    name_at: Seq<u32>,
    value_at: Seq<u32>,
    names: Seq<Seq<u8>>,
    values: Seq<Seq<u8>>,
)
    requires
        0 <= at,
        at + 8 + 8 * count <= bytes.len() <= u32::MAX,
        8 * count <= MAX_ALLOCATION,
        stands_at(bytes, at, written32(count)),
        stands_at(bytes, at + 4, written32(start)),
        name_at.len() == count,
        value_at.len() == count,
        names.len() == count,
        values.len() == count,
        forall|i: int|
            0 <= i < count ==> {
                &&& stands_at(bytes, at + 8 + 8 * i, written32(#[trigger] name_at[i]))
                &&& stands_at(bytes, at + 12 + 8 * i, written32(value_at[i]))
                &&& stands_at(bytes, start + name_at[i], written_str(names[i]))
                &&& stands_at(bytes, start + value_at[i], written_str(values[i]))
            },
        forall|i: int, k: int|
            0 <= i < count && 0 <= k < names[i].len() ==> #[trigger] names[i][k] != 0,
        forall|i: int, k: int|
            0 <= i < count && 0 <= k < values[i].len() ==> #[trigger] values[i][k] != 0,
    ensures
        value_error(X3F_CMBP, bytes, at) is None,
{
    let end = bytes.len() as int;
    let inner = bytes.subrange(at, end);
    lemma_stands_in_part(bytes, at, end, 0, written32(count));
    lemma_stands_in_part(bytes, at, end, 4, written32(start));
    law_numbers_are_read_back(inner, 0, count);
    law_numbers_are_read_back(inner, 4, start);
    assert forall|i: int| 0 <= i < count implies #[trigger] is_property_in_order(bytes, inner, i) by {
        let (n, v) = (name_at[i], value_at[i]);
        lemma_stands_in_part(bytes, at, end, 8 + 8 * i, written32(n));
        lemma_stands_in_part(bytes, at, end, 12 + 8 * i, written32(v));
        law_numbers_are_read_back(inner, 8 + 8 * i, n);
        law_numbers_are_read_back(inner, 12 + 8 * i, v);
        assert forall|k: int| 0 <= k < names[i].len() implies #[trigger] names[i][k] != 0 by {}
        law_strings_are_read_back(bytes, start + n, names[i]);
        law_strings_are_read_back(bytes, start + v, values[i]);
    }
    lemma_properties_in_order(bytes, inner, count as nat);
}

spec fn is_property_in_order(data: Seq<u8>, value: Seq<u8>, i: int) -> bool {
    &&& property_name_at(value, i) <= data.len()
    &&& property_value_at(value, i) <= data.len()
    &&& has_cstr(data, property_name_at(value, i))
    &&& has_cstr(data, property_value_at(value, i))
}

proof fn lemma_properties_in_order(data: Seq<u8>, value: Seq<u8>, k: nat)
    requires
        data.len() <= u32::MAX,
        forall|i: int| 0 <= i < k ==> #[trigger] is_property_in_order(data, value, i),
    ensures
        properties_error(data, value, k) is None,
    decreases k,
{
    if k > 0 {
        lemma_properties_in_order(data, value, (k - 1) as nat);
        assert(is_property_in_order(data, value, k - 1));
    }
}

/// A matrix is accepted if its type is a known one, the entry has room for its numbers and
/// holds the end of the name of each dimension, and the elements that its dimensions span
/// lie in the entry.
pub proof fn law_written_matrices_are_accepted(
    bytes: Seq<u8>,
    at: int,
    matrix_type: u32,
    dims: u32,
    start: u32,
    sizes: Seq<u32>,
    name_at: Seq<u32>,
    names: Seq<Seq<u8>>,
    spans: spec_fn(int) -> int,
)
    requires
        0 <= at,
        at + 12 + 12 * dims <= bytes.len() <= u32::MAX,
        24 * dims <= MAX_ALLOCATION,
        stands_at(bytes, at, written32(matrix_type)),
        stands_at(bytes, at + 4, written32(dims)),
        stands_at(bytes, at + 8, written32(start)),
        sizes.len() == dims,
        name_at.len() == dims,
        names.len() == dims,
        forall|i: int|
            0 <= i < dims ==> {
                &&& stands_at(bytes, at + 12 + 12 * i, written32(#[trigger] sizes[i]))
                &&& stands_at(bytes, at + 16 + 12 * i, written32(name_at[i]))
                &&& stands_at(bytes, name_at[i] as int, written_str(names[i]))
            },
        forall|i: int, k: int|
            0 <= i < dims && 0 <= k < names[i].len() ==> #[trigger] names[i][k] != 0,
        spans(0) == 1,
        forall|i: int| 0 <= i < dims ==> #[trigger] spans(i + 1) == spans(i) * sizes[i],
        forall|i: int| 0 <= i <= dims ==> 0 <= #[trigger] spans(i) <= MAX_ALLOCATION,
        ({
            let n = spans(dims as int);
            let size: int = if matrix_type == 0 || matrix_type == 6 {
                2
            } else if matrix_type == 5 {
                1
            } else {
                4
            };
            &&& matrix_type <= 3 || matrix_type == 5 || matrix_type == 6
            &&& start + size * n <= bytes.len()
            &&& (if matrix_type == 3 {
                8int
            } else {
                4int
            }) * n <= MAX_ALLOCATION
        }),
    ensures
        value_error(X3F_CMBM, bytes, at) is None,
{
    let end = bytes.len() as int;
    let inner = bytes.subrange(at, end);
    lemma_stands_in_part(bytes, at, end, 0, written32(matrix_type));
    lemma_stands_in_part(bytes, at, end, 4, written32(dims));
    lemma_stands_in_part(bytes, at, end, 8, written32(start));
    law_numbers_are_read_back(inner, 0, matrix_type);
    law_numbers_are_read_back(inner, 4, dims);
    law_numbers_are_read_back(inner, 8, start);
    assert forall|i: int| 0 <= i < dims implies #[trigger] is_dim_in_order(bytes, inner, sizes, i) by {
        let (s, n) = (sizes[i], name_at[i]);
        lemma_stands_in_part(bytes, at, end, 12 + 12 * i, written32(s));
        lemma_stands_in_part(bytes, at, end, 16 + 12 * i, written32(n));
        law_numbers_are_read_back(inner, 12 + 12 * i, s);
        law_numbers_are_read_back(inner, 16 + 12 * i, n);
        assert forall|k: int| 0 <= k < names[i].len() implies #[trigger] names[i][k] != 0 by {}
        law_strings_are_read_back(bytes, n as int, names[i]);
    }
    lemma_dims_in_order(bytes, inner, sizes, spans, dims as nat, dims as nat);
    let n = spans(dims as int);
    assert(dim_product(inner, dims as nat) == n);
    let size = element_size(matrix_type);
    assert(n * size == size * n) by (nonlinear_arith);
    assert(size * n <= MAX_ALLOCATION) by (nonlinear_arith)
        requires
            size <= 4,
            0 <= n,
            4 * n <= MAX_ALLOCATION,
    ;
}

spec fn is_dim_in_order(data: Seq<u8>, value: Seq<u8>, sizes: Seq<u32>, i: int) -> bool {
    &&& dim_size(value, i) == sizes[i]
    &&& dim_name_at(value, i) <= data.len()
    &&& has_cstr(data, dim_name_at(value, i) as int)
}

proof fn lemma_dims_in_order(
    data: Seq<u8>,
    value: Seq<u8>,
    sizes: Seq<u32>,
    spans: spec_fn(int) -> int,
    dims: nat,
    k: nat,
)
    requires
        k <= dims,
        forall|i: int| 0 <= i < dims ==> #[trigger] is_dim_in_order(data, value, sizes, i),
        spans(0) == 1,
        forall|i: int| 0 <= i < dims ==> #[trigger] spans(i + 1) == spans(i) * sizes[i],
        forall|i: int| 0 <= i <= dims ==> 0 <= #[trigger] spans(i) <= MAX_ALLOCATION,
    ensures
        dims_error(data, value, k) is None,
        dim_product(value, k) == spans(k as int),
    decreases k,
{
    if k > 0 {
        lemma_dims_in_order(data, value, sizes, spans, dims, (k - 1) as nat);
        assert(is_dim_in_order(data, value, sizes, k - 1));
        assert(spans(k - 1 + 1) == spans(k - 1) * sizes[k - 1]);
        assert(0 <= spans(k as int) <= MAX_ALLOCATION);
    }
}

} // verus!
