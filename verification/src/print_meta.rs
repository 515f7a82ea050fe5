//! The metadata of a container as a text.
//!
//! Real numbers and addresses stand in the text as items of their own: how they
//! are written is for the caller to say.

use crate::camf::{CamfDim, CamfEntry, CamfMatrix, CamfValue, MatrixData};
use crate::io::{
    extended_count, find_section, x3f_get_camf, x3f_get_prop, Header, Subsection, X3f,
    NUM_EXT_DATA_2_1, NUM_EXT_DATA_3_0, X3F_SECC, X3F_SECP, X3F_VERSION_2_1, X3F_VERSION_2_3,
    X3F_VERSION_3_0, X3F_VERSION_4_0,
};
use crate::parse::{cstr, cstr_of};
use crate::properties::Property;
use crate::text::{append_hex, append_signed, decimal, numeral, padded};
use vstd::prelude::*;
use vstd::string::StringSliceAdditionalSpecFns;

verus! {

/// A part of a text.
#[derive(Clone, Copy, Debug, PartialEq, Eq)]
pub enum Item {
    Byte(u8),
    /// A single-precision number by its bits, written with six decimals or with
    /// as many digits as it needs.
    Real { bits: u32, general: bool },
    /// The quotient of two numbers, with as many digits as it needs.
    Quotient { dividend: u32, divisor: u32 },
    /// An address in memory, or none.
    Address(bool),
}

/// Bytes as a text.
pub open spec fn raw(s: Seq<u8>) -> Seq<Item> {
    s.map_values(|b: u8| Item::Byte(b))
}

/// A fixed text.
pub open spec fn lit(s: &str) -> Seq<Item> {
    raw(s.spec_bytes())
}

/// A number in hexadecimal, filled up with zeros to a width.
pub open spec fn hex(n: u32, width: nat) -> Seq<Item> {
    raw(padded(numeral(n as nat, 16), width, 0x30))
}

/// A number in decimal, taken as signed, filled up with blanks to a width.
pub open spec fn dec(n: u32, width: nat) -> Seq<Item> {
    raw(padded(decimal(n as i32 as int), width, 0x20))
}

/// An address.
pub open spec fn address(present: bool) -> Seq<Item> {
    seq![Item::Address(present)]
}

pub(crate) fn put_bytes(out: &mut Vec<Item>, s: &[u8])
    ensures
        final(out)@ == old(out)@ + raw(s@),
{
    let n: usize = s.len();
    let mut i: usize = 0;
    let ghost before = out@;
    assert(out@ =~= before + raw(s@).take(0));
    while i < n
        invariant
            i <= n,
            n == s@.len(),
            out@ == before + raw(s@).take(i as int),
        decreases n - i,
    {
        out.push(Item::Byte(s[i]));
        i = i + 1;
        assert(out@ =~= before + raw(s@).take(i as int));
    }
    assert(raw(s@).take(n as int) =~= raw(s@));
}

pub(crate) fn put(out: &mut Vec<Item>, s: &str)
    ensures
        final(out)@ == old(out)@ + lit(s),
{
    put_bytes(out, s.as_bytes());
}

pub(crate) fn put_hex(out: &mut Vec<Item>, n: u32, width: usize)
    ensures
        final(out)@ == old(out)@ + hex(n, width as nat),
{
    let mut s: Vec<u8> = Vec::new();
    append_hex(&mut s, n as u64, width);
    assert(s@ =~= padded(numeral(n as nat, 16), width as nat, 0x30));
    put_bytes(out, s.as_slice());
}

pub(crate) fn put_dec(out: &mut Vec<Item>, n: u32, width: usize)
    ensures
        final(out)@ == old(out)@ + dec(n, width as nat),
{
    let mut s: Vec<u8> = Vec::new();
    append_signed(&mut s, (n as i32) as i64, width);
    assert(s@ =~= padded(decimal(n as i32 as int), width as nat, 0x20));
    put_bytes(out, s.as_slice());
}

pub(crate) fn put_items(out: &mut Vec<Item>, items: &Vec<Item>)
    ensures
        final(out)@ == old(out)@ + items@,
{
    let n: usize = items.len();
    let mut i: usize = 0;
    let ghost before = out@;
    assert(out@ =~= before + items@.take(0));
    while i < n
        invariant
            i <= n,
            n == items@.len(),
            out@ == before + items@.take(i as int),
        decreases n - i,
    {
        out.push(items[i]);
        i = i + 1;
        assert(out@ =~= before + items@.take(i as int));
    }
    assert(items@.take(n as int) =~= items@);
}

fn put_item(out: &mut Vec<Item>, item: Item)
    ensures
        final(out)@ == old(out)@ + seq![item],
{
    out.push(item);
    assert(out@ =~= old(out)@ + seq![item]);
}

pub(crate) fn put_address(out: &mut Vec<Item>, present: bool)
    ensures
        final(out)@ == old(out)@ + address(present),
{
    put_item(out, Item::Address(present));
}

/// A text that begins with a fixed one.
pub(crate) fn begin(s: &str) -> (out: Vec<Item>)
    ensures
        out@ == lit(s),
{
    let mut out: Vec<Item> = Vec::new();
    put(&mut out, s);
    assert(out@ =~= lit(s));
    out
}

/// A signature as four characters, up to the first that is zero.
pub open spec fn id_text(id: u32) -> Seq<u8> {
    cstr(
        seq![
            (id % 256) as u8,
            (id / 256 % 256) as u8,
            (id / 0x1_0000 % 256) as u8,
            (id / 0x100_0000) as u8,
        ],
        0,
    )
}

pub(crate) fn put_id(out: &mut Vec<Item>, id: u32)
    ensures
        final(out)@ == old(out)@ + raw(id_text(id)),
{
    let mut s: Vec<u8> = Vec::new();
    s.push((id % 256) as u8);
    s.push((id / 256 % 256) as u8);
    s.push((id / 0x1_0000 % 256) as u8);
    s.push((id / 0x100_0000) as u8);
    assert(s@ =~= seq![
        (id % 256) as u8,
        (id / 256 % 256) as u8,
        (id / 0x1_0000 % 256) as u8,
        (id / 0x100_0000) as u8,
    ]);
    let t: Vec<u8> = cstr_of(s.as_slice());
    put_bytes(out, t.as_slice());
}

/// One of the extended settings in a header.
pub open spec fn setting_line(h: Header, i: int) -> Seq<Item> {
    lit("    ") + dec(i as u32, 2) + lit(": ") + dec(h.extended_types@[i] as u32, 3) + lit(" = ")
        + seq![Item::Real { bits: h.extended_data@[i], general: false }] + lit("\n")
}

/// The first `n` extended settings.
pub open spec fn setting_lines(h: Header, n: nat) -> Seq<Item>
    decreases n,
{
    if n == 0 {
        Seq::empty()
    } else {
        setting_lines(h, (n - 1) as nat) + setting_line(h, n - 1)
    }
}

/// The settings of a header, from the second version on.
pub open spec fn settings_text(h: Header) -> Seq<Item> {
    if h.version < X3F_VERSION_2_1 {
        Seq::empty()
    } else {
        lit("  white_balance     = ") + raw(cstr(h.white_balance@, 0)) + lit("\n") + (
        if h.version < X3F_VERSION_2_3 {
            Seq::empty()
        } else {
            lit("  color_mode        = ") + raw(cstr(h.color_mode@, 0)) + lit("\n")
        }) + lit("  extended_types\n") + setting_lines(
            h,
            extended_count(h.version) as nat,
        )
    }
}

/// The size and the settings of a header, up to the third version.
pub open spec fn old_header_text(h: Header) -> Seq<Item> {
    if h.version >= X3F_VERSION_4_0 {
        Seq::empty()
    } else {
        lit("  unique_identifier = ") + hex(h.unique_identifier@[0] as u32, 2) + lit("...\n")
            + lit("  mark_bits         = ") + hex(h.mark_bits, 8) + lit("\n")
            + lit("  columns           = ") + hex(h.columns, 8) + lit(" (") + dec(h.columns, 0)
            + lit(")\n") + lit("  rows              = ") + hex(h.rows, 8) + lit(" (") + dec(
            h.rows,
            0,
        ) + lit(")\n") + lit("  rotation          = ") + hex(h.rotation, 8) + lit(" (") + dec(
            h.rotation,
            0,
        ) + lit(")\n") + settings_text(h)
    }
}

/// The header of a container.
pub open spec fn header_text(h: Header) -> Seq<Item> {
    lit("BEGIN: file header meta data\n\n") + lit("header.\n") + lit("  identifier        = ")
        + hex(h.identifier, 8) + lit(" (") + raw(id_text(h.identifier)) + lit(")\n")
        + lit("  version           = ") + hex(h.version, 8) + lit("\n") + old_header_text(h)
        + lit("END: file header meta data\n\n")
}

fn print_settings(h: &Header) -> (out: Vec<Item>)
    requires
        h.inv(),
        h.version < X3F_VERSION_4_0,
    ensures
        out@ == settings_text(*h),
{
    if h.version < X3F_VERSION_2_1 {
        return Vec::new();
    }
    let mut out: Vec<Item> = begin("  white_balance     = ");
    let wb: Vec<u8> = cstr_of(h.white_balance.as_slice());
    put_bytes(&mut out, wb.as_slice());
    put(&mut out, "\n");
    let mut mode: Vec<Item> = Vec::new();
    if h.version >= X3F_VERSION_2_3 {
        mode = begin("  color_mode        = ");
        let name: Vec<u8> = cstr_of(h.color_mode.as_slice());
        put_bytes(&mut mode, name.as_slice());
        put(&mut mode, "\n");
    }
    put_items(&mut out, &mode);
    put(&mut out, "  extended_types\n");
    let n: usize = if h.version >= X3F_VERSION_3_0 {
        NUM_EXT_DATA_3_0
    } else {
        NUM_EXT_DATA_2_1
    };
    let mut lines: Vec<Item> = Vec::new();
    let mut i: usize = 0;
    while i < n
        invariant
            i <= n,
            n == extended_count(h.version),
            n <= 64,
            h.extended_types@.len() == n,
            h.extended_data@.len() == n,
            lines@ == setting_lines(*h, i as nat),
        decreases n - i,
    {
        let mut line: Vec<Item> = begin("    ");
        put_dec(&mut line, i as u32, 2);
        put(&mut line, ": ");
        put_dec(&mut line, h.extended_types[i] as u32, 3);
        put(&mut line, " = ");
        put_item(&mut line, Item::Real { bits: h.extended_data[i], general: false });
        put(&mut line, "\n");
        put_items(&mut lines, &line);
        i = i + 1;
    }
    put_items(&mut out, &lines);
    out
}

fn print_old_header(h: &Header) -> (out: Vec<Item>)
    requires
        h.inv(),
    ensures
        out@ == old_header_text(*h),
{
    if h.version >= X3F_VERSION_4_0 {
        return Vec::new();
    }
    let mut out: Vec<Item> = begin("  unique_identifier = ");
    put_hex(&mut out, h.unique_identifier[0] as u32, 2);
    put(&mut out, "...\n");
    put(&mut out, "  mark_bits         = ");
    put_hex(&mut out, h.mark_bits, 8);
    put(&mut out, "\n");
    put(&mut out, "  columns           = ");
    put_hex(&mut out, h.columns, 8);
    put(&mut out, " (");
    put_dec(&mut out, h.columns, 0);
    put(&mut out, ")\n");
    put(&mut out, "  rows              = ");
    put_hex(&mut out, h.rows, 8);
    put(&mut out, " (");
    put_dec(&mut out, h.rows, 0);
    put(&mut out, ")\n");
    put(&mut out, "  rotation          = ");
    put_hex(&mut out, h.rotation, 8);
    put(&mut out, " (");
    put_dec(&mut out, h.rotation, 0);
    put(&mut out, ")\n");
    let settings: Vec<Item> = print_settings(h);
    put_items(&mut out, &settings);
    out
}

/// The header of a container.
pub fn print_file_header_meta_data(h: &Header) -> (out: Vec<Item>)
    requires
        h.inv(),
    ensures
        out@ == header_text(*h),
{
    let mut out: Vec<Item> = begin("BEGIN: file header meta data\n\n");
    put(&mut out, "header.\n");
    put(&mut out, "  identifier        = ");
    put_hex(&mut out, h.identifier, 8);
    put(&mut out, " (");
    put_id(&mut out, h.identifier);
    put(&mut out, ")\n");
    put(&mut out, "  version           = ");
    put_hex(&mut out, h.version, 8);
    put(&mut out, "\n");
    let rest: Vec<Item> = print_old_header(h);
    put_items(&mut out, &rest);
    put(&mut out, "END: file header meta data\n\n");
    out
}

/// An element of a matrix.
pub open spec fn element_text(data: MatrixData, i: int) -> Seq<Item> {
    (match data {
        MatrixData::Float(v) => seq![Item::Real { bits: v@[i], general: true }],
        MatrixData::Int(v) => raw(padded(decimal(v@[i] as int), 12, 0x20)),
        MatrixData::Uint(v) => dec(v@[i], 12),
    }) + lit(" ")
}

/// Whether a line or a group of this size ends after `n` elements.
pub open spec fn ends_after(n: int, size: int) -> bool {
    size > 0 && n % size == 0
}

/// The first `n` elements of a matrix, in lines and groups of these sizes.
pub open spec fn elements_text(data: MatrixData, line: int, group: int, n: nat) -> Seq<Item>
    decreases n,
{
    if n == 0 {
        Seq::empty()
    } else {
        elements_text(data, line, group, (n - 1) as nat) + element_text(data, n - 1) + (
        if ends_after(n as int, line) {
            lit("\n")
        } else {
            Seq::empty()
        }) + (if ends_after(n as int, group) {
            lit("\n")
        } else {
            Seq::empty()
        })
    }
}

/// What a matrix holds, and its size.
pub open spec fn matrix_head(m: CamfMatrix) -> Seq<Item> {
    let d = m.dims@;
    let kind = match m.decoded {
        MatrixData::Float(_) => lit("float "),
        MatrixData::Int(_) => lit("integer "),
        MatrixData::Uint(_) => lit("unsigned integer "),
    };
    if d.len() == 1 {
        kind + lit("[") + dec(d[0].size, 0) + lit("]\n") + lit("x: ") + raw(d[0].name@) + lit("\n")
    } else if d.len() == 2 {
        kind + lit("[") + dec(d[0].size, 0) + lit("][") + dec(d[1].size, 0) + lit("]\n") + lit(
            "x: ",
        ) + raw(d[1].name@) + lit("\n") + lit("y: ") + raw(d[0].name@) + lit("\n")
    } else if d.len() == 3 {
        kind + lit("[") + dec(d[0].size, 0) + lit("][") + dec(d[1].size, 0) + lit("][") + dec(
            d[2].size,
            0,
        ) + lit("]\n") + lit("x: ") + raw(d[2].name@) + lit("\n") + lit("y: ") + raw(d[1].name@)
            + lit("\n") + lit("z: ") + raw(d[0].name@) + lit(" (i.e. group)\n")
    } else {
        kind + lit("\nNot support for higher than 3D in printout\n")
    }
}

/// The number of elements in a group: a matrix of three dimensions is written in
/// groups of lines, and any other in one.
pub open spec fn group_size(m: CamfMatrix) -> int {
    if m.dims@.len() == 3 {
        m.dims@[2].size * m.dims@[1].size
    } else {
        u32::MAX as int
    }
}

/// The number of elements that are written, of those that there are: no more
/// than `max`.
pub open spec fn written(total: nat, max: u32) -> nat {
    if total < max {
        total
    } else {
        max as nat
    }
}

/// A matrix, of which no more than `max` elements are written. Once so many are
/// written, the number of those that are left ends the text.
pub open spec fn matrix_text(m: CamfMatrix, max: u32) -> Seq<Item> {
    let total = m.decoded.len();
    let n = written(total, max);
    matrix_head(m) + elements_text(
        m.decoded,
        m.dims@[m.dims@.len() - 1].size as int,
        group_size(m),
        n,
    ) + (if total > 0 && n == max {
        lit("\n... (") + dec((total - n) as u32, 0) + lit(" skipped) ...\n")
    } else {
        Seq::empty()
    })
}

fn print_matrix_element(out: &mut Vec<Item>, data: &MatrixData, i: usize)
    requires
        i < data.len(),
    ensures
        final(out)@ == old(out)@ + element_text(*data, i as int),
{
    let mut t: Vec<Item> = Vec::new();
    match data {
        MatrixData::Float(v) => {
            t.push(Item::Real { bits: v[i], general: true });
            assert(t@ =~= seq![Item::Real { bits: v@[i as int], general: true }]);
        },
        MatrixData::Int(v) => {
            let mut s: Vec<u8> = Vec::new();
            append_signed(&mut s, v[i] as i64, 12);
            assert(s@ =~= padded(decimal(v@[i as int] as int), 12, 0x20));
            put_bytes(&mut t, s.as_slice());
            assert(t@ =~= raw(s@));
        },
        MatrixData::Uint(v) => {
            put_dec(&mut t, v[i], 12);
            assert(t@ =~= dec(v@[i as int], 12));
        },
    }
    put(&mut t, " ");
    put_items(out, &t);
}

fn print_matrix_head(m: &CamfMatrix) -> (out: Vec<Item>)
    ensures
        out@ == matrix_head(*m),
{
    let d: &Vec<CamfDim> = &m.dims;
    let mut out: Vec<Item> = begin(
        match &m.decoded {
            MatrixData::Float(_) => "float ",
            MatrixData::Int(_) => "integer ",
            MatrixData::Uint(_) => "unsigned integer ",
        },
    );
    if d.len() == 1 {
        put(&mut out, "[");
        put_dec(&mut out, d[0].size, 0);
        put(&mut out, "]\n");
        put(&mut out, "x: ");
        put_bytes(&mut out, d[0].name.as_slice());
        put(&mut out, "\n");
    } else if d.len() == 2 {
        put(&mut out, "[");
        put_dec(&mut out, d[0].size, 0);
        put(&mut out, "][");
        put_dec(&mut out, d[1].size, 0);
        put(&mut out, "]\n");
        put(&mut out, "x: ");
        put_bytes(&mut out, d[1].name.as_slice());
        put(&mut out, "\n");
        put(&mut out, "y: ");
        put_bytes(&mut out, d[0].name.as_slice());
        put(&mut out, "\n");
    } else if d.len() == 3 {
        put(&mut out, "[");
        put_dec(&mut out, d[0].size, 0);
        put(&mut out, "][");
        put_dec(&mut out, d[1].size, 0);
        put(&mut out, "][");
        put_dec(&mut out, d[2].size, 0);
        put(&mut out, "]\n");
        put(&mut out, "x: ");
        put_bytes(&mut out, d[2].name.as_slice());
        put(&mut out, "\n");
        put(&mut out, "y: ");
        put_bytes(&mut out, d[1].name.as_slice());
        put(&mut out, "\n");
        put(&mut out, "z: ");
        put_bytes(&mut out, d[0].name.as_slice());
        put(&mut out, " (i.e. group)\n");
    } else {
        put(&mut out, "\nNot support for higher than 3D in printout\n");
    }
    out
}

/// The first `n` elements of a matrix, in lines and groups of these sizes.
fn print_elements(data: &MatrixData, line: u64, group: u64, n: usize) -> (out: Vec<Item>)
    requires
        n <= data.len(),
    ensures
        out@ == elements_text(*data, line as int, group as int, n as nat),
{
    let mut out: Vec<Item> = Vec::new();
    let mut i: usize = 0;
    while i < n
        invariant
            i <= n <= data.len(),
            out@ == elements_text(*data, line as int, group as int, i as nat),
        decreases n - i,
    {
        print_matrix_element(&mut out, data, i);
        i = i + 1;
        let mut end: Vec<Item> = Vec::new();
        if line > 0 && i as u64 % line == 0 {
            end = begin("\n");
        }
        put_items(&mut out, &end);
        let mut end: Vec<Item> = Vec::new();
        if group > 0 && i as u64 % group == 0 {
            end = begin("\n");
        }
        put_items(&mut out, &end);
    }
    out
}

/// The number of elements of a matrix.
fn element_count(data: &MatrixData) -> (n: usize)
    ensures
        n == data.len(),
{
    match data {
        MatrixData::Float(v) => v.len(),
        MatrixData::Int(v) => v.len(),
        MatrixData::Uint(v) => v.len(),
    }
}

/// A matrix, of which no more than `max` elements are written.
pub fn print_matrix(m: &CamfMatrix, max: u32) -> (out: Vec<Item>)
    requires
        m.dims@.len() > 0,
    ensures
        out@ == matrix_text(*m, max),
{
    let total: usize = element_count(&m.decoded);
    let n: usize = if total < max as usize {
        total
    } else {
        max as usize
    };
    let mut out: Vec<Item> = print_matrix_head(m);
    let line: u64 = m.dims[m.dims.len() - 1].size as u64;
    let group: u64 = if m.dims.len() == 3 {
        proof {
            let (a, b) = (m.dims@[2].size as int, m.dims@[1].size as int);
            assert(0 <= a * b <= 0xffff_ffff * 0xffff_ffff) by (nonlinear_arith)
                requires
                    0 <= a <= 0xffff_ffff,
                    0 <= b <= 0xffff_ffff,
            ;
        }
        m.dims[2].size as u64 * m.dims[1].size as u64
    } else {
        u32::MAX as u64
    };
    let elements: Vec<Item> = print_elements(&m.decoded, line, group, n);
    put_items(&mut out, &elements);
    let mut rest: Vec<Item> = Vec::new();
    if total > 0 && n == max as usize {
        rest = begin("\n... (");
        put_dec(&mut rest, (total - n) as u32, 0);
        put(&mut rest, " skipped) ...\n");
    }
    put_items(&mut out, &rest);
    out
}

/// The first `n` properties of a list.
pub open spec fn pairs_text(names: Seq<Vec<u8>>, values: Seq<Vec<u8>>, n: nat) -> Seq<Item>
    decreases n,
{
    if n == 0 {
        Seq::empty()
    } else {
        pairs_text(names, values, (n - 1) as nat) + (lit("              \"") + raw(
            names[n - 1]@,
        ) + lit("\" = \"") + raw(values[n - 1]@) + lit("\"\n"))
    }
}

/// The particulars of an entry, under its number.
pub open spec fn entry_particulars(e: CamfEntry, i: u32) -> Seq<Item> {
    lit("          element[") + dec(i, 0) + lit("].name = \"") + raw(e.name@) + lit("\"\n") + lit(
        "            id = ",
    ) + hex(e.id, 0) + lit(" (") + raw(id_text(e.id)) + lit(")\n") + lit(
        "            entry_size = ",
    ) + dec(e.entry_size, 0) + lit("\n") + lit("            name_size = ") + dec(e.name_size, 0)
        + lit("\n") + lit("            value_size = ") + dec(e.value_size, 0) + lit("\n")
}

/// The particulars of a dimension, under its number.
pub open spec fn dim_text(d: CamfDim, j: u32) -> Seq<Item> {
    lit("            ") + dec(j, 0) + lit("\n") + lit("              size = ") + dec(d.size, 0)
        + lit("\n") + lit("              name_offset = ") + dec(d.name_offset, 0) + lit("\n")
        + lit("              n = ") + dec(d.n, 0) + (if j == d.n {
        Seq::empty()
    } else {
        lit(" (out of order)")
    }) + lit("\n") + lit("              name = \"") + raw(d.name@) + lit("\"\n")
}

/// The particulars of the first `n` dimensions.
pub open spec fn dims_text(dims: Seq<CamfDim>, n: nat) -> Seq<Item>
    decreases n,
{
    if n == 0 {
        Seq::empty()
    } else {
        dims_text(dims, (n - 1) as nat) + dim_text(dims[n - 1], (n - 1) as u32)
    }
}

/// The particulars of a matrix. Its elements take the bytes up to the end of the
/// entry; a matrix without elements takes none.
pub open spec fn matrix_particulars(m: CamfMatrix) -> Seq<Item> {
    lit("            matrix_type = ") + dec(m.matrix_type, 0) + lit("\n") + lit(
        "            matrix_dim = ",
    ) + dec(m.dims@.len() as u32, 0) + lit("\n") + lit("            matrix_data_off = ") + dec(
        m.matrix_data_off,
        0,
    ) + lit("\n") + dims_text(m.dims@, m.dims@.len()) + lit("            matrix_element_size = ")
        + dec(m.element_size, 0) + lit("\n") + lit("            matrix_elements = ") + dec(
        m.elements,
        0,
    ) + lit("\n") + lit("            matrix_estimated_element_size = ") + seq![
        Item::Quotient {
            dividend: if m.elements == 0 {
                0
            } else {
                m.used_space
            },
            divisor: if m.elements == 0 {
                1
            } else {
                m.elements
            },
        },
    ] + lit("\n")
}

/// What an entry of the metadata holds.
pub open spec fn value_text(e: CamfEntry, max: u32, particulars: bool) -> Seq<Item> {
    match e.value {
        CamfValue::Text { text_size, text } => if text_size == 0 {
            Seq::empty()
        } else {
            lit("BEGIN: CAMF text meta data (") + raw(e.name@) + lit(")\n") + lit("\"") + raw(
                text@,
            ) + lit("\"\n") + lit("END: CAMF text meta data\n\n")
        },
        CamfValue::Property { names, values } => if names@.len() == 0 {
            Seq::empty()
        } else {
            lit("BEGIN: CAMF property meta data (") + raw(e.name@) + lit(")\n") + pairs_text(
                names@,
                values@,
                names@.len(),
            ) + lit("END: CAMF property meta data\n\n")
        },
        CamfValue::Matrix(m) => if m.dims@.len() == 0 {
            Seq::empty()
        } else {
            lit("BEGIN: CAMF matrix meta data (") + raw(e.name@) + lit(")\n") + (
            if particulars {
                matrix_particulars(m)
            } else {
                Seq::empty()
            }) + matrix_text(m, max) + lit("END: CAMF matrix meta data\n\n")
        },
    }
}

/// An entry of the metadata, under its number.
pub open spec fn entry_text(e: CamfEntry, i: u32, max: u32, particulars: bool) -> Seq<Item> {
    (if particulars {
        entry_particulars(e, i)
    } else {
        Seq::empty()
    }) + value_text(e, max, particulars)
}

/// The first `n` entries of the metadata.
pub open spec fn entries_text(
    entries: Seq<CamfEntry>,
    max: u32,
    particulars: bool,
    n: nat,
) -> Seq<Item>
    decreases n,
{
    if n == 0 {
        Seq::empty()
    } else {
        entries_text(entries, max, particulars, (n - 1) as nat) + entry_text(
            entries[n - 1],
            (n - 1) as u32,
            max,
            particulars,
        )
    }
}

/// The entries of a metadata section.
pub open spec fn camf_text(entries: Seq<CamfEntry>, max: u32, particulars: bool) -> Seq<Item> {
    lit("BEGIN: CAMF meta data\n\n") + entries_text(entries, max, particulars, entries.len())
        + lit("END: CAMF meta data\n\n")
}

fn print_entry_particulars(e: &CamfEntry, i: u32) -> (out: Vec<Item>)
    ensures
        out@ == entry_particulars(*e, i),
{
    let mut out: Vec<Item> = begin("          element[");
    put_dec(&mut out, i, 0);
    put(&mut out, "].name = \"");
    put_bytes(&mut out, e.name.as_slice());
    put(&mut out, "\"\n");
    put(&mut out, "            id = ");
    put_hex(&mut out, e.id, 0);
    put(&mut out, " (");
    put_id(&mut out, e.id);
    put(&mut out, ")\n");
    put(&mut out, "            entry_size = ");
    put_dec(&mut out, e.entry_size, 0);
    put(&mut out, "\n");
    put(&mut out, "            name_size = ");
    put_dec(&mut out, e.name_size, 0);
    put(&mut out, "\n");
    put(&mut out, "            value_size = ");
    put_dec(&mut out, e.value_size, 0);
    put(&mut out, "\n");
    out
}

fn print_dim(d: &CamfDim, j: u32) -> (out: Vec<Item>)
    ensures
        out@ == dim_text(*d, j),
{
    let mut out: Vec<Item> = begin("            ");
    put_dec(&mut out, j, 0);
    put(&mut out, "\n");
    put(&mut out, "              size = ");
    put_dec(&mut out, d.size, 0);
    put(&mut out, "\n");
    put(&mut out, "              name_offset = ");
    put_dec(&mut out, d.name_offset, 0);
    put(&mut out, "\n");
    put(&mut out, "              n = ");
    put_dec(&mut out, d.n, 0);
    let mut order: Vec<Item> = Vec::new();
    if j != d.n {
        order = begin(" (out of order)");
    }
    put_items(&mut out, &order);
    put(&mut out, "\n");
    put(&mut out, "              name = \"");
    put_bytes(&mut out, d.name.as_slice());
    put(&mut out, "\"\n");
    out
}

fn print_dims(dims: &Vec<CamfDim>) -> (out: Vec<Item>)
    ensures
        out@ == dims_text(dims@, dims@.len()),
{
    let mut out: Vec<Item> = Vec::new();
    let mut j: usize = 0;
    while j < dims.len()
        invariant
            j <= dims@.len(),
            out@ == dims_text(dims@, j as nat),
        decreases dims@.len() - j,
    {
        let dim: Vec<Item> = print_dim(&dims[j], j as u32);
        put_items(&mut out, &dim);
        j = j + 1;
    }
    out
}

fn print_matrix_particulars(m: &CamfMatrix) -> (out: Vec<Item>)
    ensures
        out@ == matrix_particulars(*m),
{
    let mut out: Vec<Item> = begin("            matrix_type = ");
    put_dec(&mut out, m.matrix_type, 0);
    put(&mut out, "\n");
    put(&mut out, "            matrix_dim = ");
    put_dec(&mut out, m.dims.len() as u32, 0);
    put(&mut out, "\n");
    put(&mut out, "            matrix_data_off = ");
    put_dec(&mut out, m.matrix_data_off, 0);
    put(&mut out, "\n");
    let dims: Vec<Item> = print_dims(&m.dims);
    put_items(&mut out, &dims);
    put(&mut out, "            matrix_element_size = ");
    put_dec(&mut out, m.element_size, 0);
    put(&mut out, "\n");
    put(&mut out, "            matrix_elements = ");
    put_dec(&mut out, m.elements, 0);
    put(&mut out, "\n");
    put(&mut out, "            matrix_estimated_element_size = ");
    let size: Item = if m.elements == 0 {
        Item::Quotient { dividend: 0, divisor: 1 }
    } else {
        Item::Quotient { dividend: m.used_space, divisor: m.elements }
    };
    put_item(&mut out, size);
    put(&mut out, "\n");
    out
}

fn print_pairs(names: &Vec<Vec<u8>>, values: &Vec<Vec<u8>>) -> (out: Vec<Item>)
    requires
        names@.len() == values@.len(),
    ensures
        out@ == pairs_text(names@, values@, names@.len()),
{
    let mut out: Vec<Item> = Vec::new();
    let mut i: usize = 0;
    while i < names.len()
        invariant
            i <= names@.len(),
            names@.len() == values@.len(),
            out@ == pairs_text(names@, values@, i as nat),
        decreases names@.len() - i,
    {
        let mut line: Vec<Item> = begin("              \"");
        put_bytes(&mut line, names[i].as_slice());
        put(&mut line, "\" = \"");
        put_bytes(&mut line, values[i].as_slice());
        put(&mut line, "\"\n");
        put_items(&mut out, &line);
        i = i + 1;
    }
    out
}

fn print_value(e: &CamfEntry, max: u32, particulars: bool) -> (out: Vec<Item>)
    requires
        e.inv(),
    ensures
        out@ == value_text(*e, max, particulars),
{
    match &e.value {
        CamfValue::Text { text_size, text } => {
            if *text_size == 0 {
                return Vec::new();
            }
            let mut out: Vec<Item> = begin("BEGIN: CAMF text meta data (");
            put_bytes(&mut out, e.name.as_slice());
            put(&mut out, ")\n");
            put(&mut out, "\"");
            put_bytes(&mut out, text.as_slice());
            put(&mut out, "\"\n");
            put(&mut out, "END: CAMF text meta data\n\n");
            out
        },
        CamfValue::Property { names, values } => {
            if names.len() == 0 {
                return Vec::new();
            }
            let mut out: Vec<Item> = begin("BEGIN: CAMF property meta data (");
            put_bytes(&mut out, e.name.as_slice());
            put(&mut out, ")\n");
            let pairs: Vec<Item> = print_pairs(names, values);
            put_items(&mut out, &pairs);
            put(&mut out, "END: CAMF property meta data\n\n");
            out
        },
        CamfValue::Matrix(m) => {
            if m.dims.len() == 0 {
                return Vec::new();
            }
            let mut out: Vec<Item> = begin("BEGIN: CAMF matrix meta data (");
            put_bytes(&mut out, e.name.as_slice());
            put(&mut out, ")\n");
            let mut more: Vec<Item> = Vec::new();
            if particulars {
                more = print_matrix_particulars(m);
            }
            put_items(&mut out, &more);
            let matrix: Vec<Item> = print_matrix(m, max);
            put_items(&mut out, &matrix);
            put(&mut out, "END: CAMF matrix meta data\n\n");
            out
        },
    }
}

fn print_entry(e: &CamfEntry, i: u32, max: u32, particulars: bool) -> (out: Vec<Item>)
    requires
        e.inv(),
    ensures
        out@ == entry_text(*e, i, max, particulars),
{
    let mut out: Vec<Item> = Vec::new();
    if particulars {
        out = print_entry_particulars(e, i);
    }
    let value: Vec<Item> = print_value(e, max, particulars);
    put_items(&mut out, &value);
    out
}

/// The entries of a metadata section; of matrices, no more than `max` elements
/// each. The particulars of entries and matrices are for the standard output.
pub fn print_camf_meta_data2(entries: &Vec<CamfEntry>, max: u32, particulars: bool) -> (out: Vec<
    Item,
>)
    requires
        forall|i: int| 0 <= i < entries@.len() ==> (#[trigger] entries@[i]).inv(),
    ensures
        out@ == camf_text(entries@, max, particulars),
{
    let mut out: Vec<Item> = begin("BEGIN: CAMF meta data\n\n");
    let mut body: Vec<Item> = Vec::new();
    let mut i: usize = 0;
    while i < entries.len()
        invariant
            i <= entries@.len(),
            forall|k: int| 0 <= k < entries@.len() ==> (#[trigger] entries@[k]).inv(),
            body@ == entries_text(entries@, max, particulars, i as nat),
        decreases entries@.len() - i,
    {
        assert(entries@[i as int].inv());
        let entry: Vec<Item> = print_entry(&entries[i], i as u32, max, particulars);
        put_items(&mut body, &entry);
        i = i + 1;
    }
    put_items(&mut out, &body);
    put(&mut out, "END: CAMF meta data\n\n");
    out
}

/// The first `n` properties of a property section.
pub open spec fn properties_text(properties: Seq<Property>, n: nat) -> Seq<Item>
    decreases n,
{
    if n == 0 {
        Seq::empty()
    } else {
        let p = properties[n - 1];
        properties_text(properties, (n - 1) as nat) + (lit("          [") + dec(
            (n - 1) as u32,
            0,
        ) + lit("] \"") + raw(p.name_utf8@) + lit("\" = \"") + raw(p.value_utf8@) + lit("\"\n"))
    }
}

/// A property section.
pub open spec fn prop_text(properties: Seq<Property>) -> Seq<Item> {
    lit("BEGIN: PROP meta data\n\n") + properties_text(properties, properties.len()) + lit(
        "END: PROP meta data\n\n",
    )
}

/// A property section.
pub fn print_prop_meta_data2(properties: &Vec<Property>) -> (out: Vec<Item>)
    ensures
        out@ == prop_text(properties@),
{
    let mut out: Vec<Item> = begin("BEGIN: PROP meta data\n\n");
    let mut body: Vec<Item> = Vec::new();
    let mut i: usize = 0;
    while i < properties.len()
        invariant
            i <= properties@.len(),
            body@ == properties_text(properties@, i as nat),
        decreases properties@.len() - i,
    {
        let p: &Property = &properties[i];
        let mut line: Vec<Item> = begin("          [");
        put_dec(&mut line, i as u32, 0);
        put(&mut line, "] \"");
        put_bytes(&mut line, p.name_utf8.as_slice());
        put(&mut line, "\" = \"");
        put_bytes(&mut line, p.value_utf8.as_slice());
        put(&mut line, "\"\n");
        put_items(&mut body, &line);
        i = i + 1;
    }
    put_items(&mut out, &body);
    put(&mut out, "END: PROP meta data\n\n");
    out
}

/// What is written of the metadata section of a container.
pub open spec fn camf_section_text(x3f: X3f, max: u32) -> Seq<Item> {
    match find_section(x3f.directory@, X3F_SECC, 0, 0) {
        None => lit("INFO: No CAMF meta data found\n\n"),
        Some(i) => match x3f.directory@[i].data {
            Subsection::Camf(camf) => camf_text(camf.entries@, max, false),
            _ => Seq::empty(),
        },
    }
}

/// What is written of the property section of a container.
pub open spec fn prop_section_text(x3f: X3f) -> Seq<Item> {
    match find_section(x3f.directory@, X3F_SECP, 0, 0) {
        None => lit("INFO: No PROP meta data found\n\n"),
        Some(i) => match x3f.directory@[i].data {
            Subsection::PropertyList(pl) => prop_text(pl.properties@),
            _ => Seq::empty(),
        },
    }
}

/// The metadata section of a container.
pub fn print_camf_meta_data(x3f: &X3f<'_>, max: u32) -> (out: Vec<Item>)
    requires
        x3f.inv(),
    ensures
        out@ == camf_section_text(*x3f, max),
{
    match x3f_get_camf(x3f) {
        None => begin("INFO: No CAMF meta data found\n\n"),
        Some(i) => {
            assert(x3f.directory@[i as int].inv());
            match &x3f.directory[i].data {
                Subsection::Camf(camf) => print_camf_meta_data2(&camf.entries, max, false),
                _ => Vec::new(),
            }
        },
    }
}

/// The property section of a container.
pub fn print_prop_meta_data(x3f: &X3f<'_>) -> (out: Vec<Item>)
    requires
        x3f.inv(),
    ensures
        out@ == prop_section_text(*x3f),
{
    match x3f_get_prop(x3f) {
        None => begin("INFO: No PROP meta data found\n\n"),
        Some(i) => {
            assert(x3f.directory@[i as int].inv());
            match &x3f.directory[i].data {
                Subsection::PropertyList(pl) => print_prop_meta_data2(&pl.properties),
                _ => Vec::new(),
            }
        },
    }
}

/// The text of a metadata dump: the header, the metadata and the properties. Of a
/// matrix, no more than `max` elements are written.
pub fn dump_meta_data_text(x3f: &X3f<'_>, max: u32) -> (out: Vec<Item>)
    requires
        x3f.inv(),
    ensures
        out@ == header_text(x3f.header) + camf_section_text(*x3f, max) + prop_section_text(*x3f),
{
    let mut out: Vec<Item> = print_file_header_meta_data(&x3f.header);
    let camf: Vec<Item> = print_camf_meta_data(x3f, max);
    put_items(&mut out, &camf);
    let prop: Vec<Item> = print_prop_meta_data(x3f);
    put_items(&mut out, &prop);
    out
}

/// The bits of the real numbers in a text, in their order.
pub open spec fn reals_of(items: Seq<Item>) -> Seq<u32>
    decreases items.len(),
{
    if items.len() == 0 {
        Seq::empty()
    } else {
        let before = reals_of(items.drop_last());
        match items.last() {
            Item::Real { bits, .. } => before.push(bits),
            _ => before,
        }
    }
}

proof fn lemma_reals_join(a: Seq<Item>, b: Seq<Item>)
    ensures
        reals_of(a + b) == reals_of(a) + reals_of(b),
    decreases b.len(),
{
    if b.len() == 0 {
        assert(a + b =~= a);
        assert(reals_of(a) + reals_of(b) =~= reals_of(a));
    } else {
        lemma_reals_join(a, b.drop_last());
        assert((a + b).drop_last() =~= a + b.drop_last());
        assert((a + b).last() == b.last());
        assert(reals_of(a + b) =~= reals_of(a) + reals_of(b));
    }
}

proof fn lemma_no_reals(s: Seq<u8>)
    ensures
        reals_of(raw(s)) == Seq::<u32>::empty(),
    decreases s.len(),
{
    if s.len() > 0 {
        lemma_no_reals(s.drop_last());
        assert(raw(s).drop_last() =~= raw(s.drop_last()));
        assert(raw(s).last() == Item::Byte(s.last()));
    }
}

/// The elements of a matrix of real numbers are written in their order, each once, however
/// the lines and groups are.
pub proof fn law_elements_are_written_in_order(v: Vec<u32>, line: int, group: int, n: nat)
    requires
        n <= v@.len(),
    ensures
        reals_of(elements_text(MatrixData::Float(v), line, group, n)) == v@.take(n as int),
    decreases n,
{
    let data = MatrixData::Float(v);
    if n == 0 {
        assert(v@.take(0) =~= Seq::<u32>::empty());
    } else {
        let m = (n - 1) as nat;
        law_elements_are_written_in_order(v, line, group, m);
        let before = elements_text(data, line, group, m);
        let element = element_text(data, n - 1);
        let number = seq![Item::Real { bits: v@[n - 1], general: true }];
        let end = if ends_after(n as int, line) {
            lit("\n")
        } else {
            Seq::empty()
        };
        let last = if ends_after(n as int, group) {
            lit("\n")
        } else {
            Seq::empty()
        };
        lemma_no_reals(" ".spec_bytes());
        lemma_no_reals("\n".spec_bytes());
        lemma_reals_join(number, lit(" "));
        assert(number.drop_last() =~= Seq::<Item>::empty());
        assert(reals_of(number.drop_last()) =~= Seq::<u32>::empty());
        assert(number.last() == Item::Real { bits: v@[n - 1], general: true });
        assert(reals_of(number) =~= seq![v@[n - 1]]);
        lemma_reals_join(before, element);
        lemma_reals_join(before + element, end);
        lemma_reals_join(before + element + end, last);
        assert(reals_of(end) =~= Seq::<u32>::empty() && reals_of(last) =~= Seq::<u32>::empty());
        assert(elements_text(data, line, group, n) =~= before + element + end + last);
        assert(v@.take(n as int) =~= v@.take(n - 1).push(v@[n - 1]));
        assert(reals_of(elements_text(data, line, group, n)) =~= v@.take(n as int));
    }
}

} // verus!
