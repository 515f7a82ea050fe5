//! Look-ups in the loaded metadata and property sections.

use crate::camf::{dims_product, CamfDim, CamfEntry, CamfMatrix, CamfValue, MatrixData};
use crate::io::{
    find_section, law_the_first_section_is_found, x3f_get_camf, x3f_get_prop, Subsection, X3f,
    X3F_SECC, X3F_SECP,
};
use crate::parse::{cstr, cstr_of};
use crate::properties::Property;
use vstd::arithmetic::power2::{lemma2_to64, lemma_pow2_unfold, pow2};
use vstd::prelude::*;
use vstd::string::StringSliceAdditionalSpecFns;

verus! {

/// The kinds of numbers that a matrix can hold.
#[derive(Clone, Copy, Debug, PartialEq, Eq, Structural)]
pub enum MatrixType {
    Float,
    Int,
    Uint,
}

/// Whether two byte strings are the same.
pub fn bytes_eq(a: &[u8], b: &[u8]) -> (r: bool)
    ensures
        r == (a@ == b@),
{
    if a.len() != b.len() {
        return false;
    }
    let mut i: usize = 0;
    while i < a.len()
        invariant
            i <= a@.len(),
            a@.len() == b@.len(),
            forall|k: int| 0 <= k < i ==> a@[k] == b@[k],
        decreases a@.len() - i,
    {
        if a[i] != b[i] {
            return false;
        }
        i = i + 1;
    }
    assert(a@ =~= b@);
    true
}

/// The entries of the container's metadata section; none where it is missing or
/// not loaded.
pub open spec fn camf_entries(x3f: X3f) -> Seq<CamfEntry> {
    match find_section(x3f.directory@, X3F_SECC, 0, 0) {
        Some(i) => match x3f.directory@[i].data {
            Subsection::Camf(camf) => camf.entries@,
            _ => Seq::empty(),
        },
        None => Seq::empty(),
    }
}

/// The place of the first entry from `i` on with this name.
pub open spec fn find_entry(entries: Seq<CamfEntry>, name: Seq<u8>, i: int) -> Option<int>
    decreases entries.len() - i,
{
    if !(0 <= i < entries.len()) {
        None
    } else if entries[i].name@ == name {
        Some(i)
    } else {
        find_entry(entries, name, i + 1)
    }
}

/// The first entry with this name.
pub open spec fn camf_entry(x3f: X3f, name: Seq<u8>) -> Option<CamfEntry> {
    match find_entry(camf_entries(x3f), name, 0) {
        Some(i) => Some(camf_entries(x3f)[i]),
        None => None,
    }
}

/// The first entry with this name.
fn camf_find_by_name<'b>(x3f: &'b X3f<'_>, name: &[u8]) -> (r: Option<&'b CamfEntry>)
    requires
        x3f.inv(),
    ensures
        match r {
            Some(entry) => camf_entry(*x3f, name@) == Some(*entry) && entry.inv(),
            None => camf_entry(*x3f, name@) is None,
        },
{
    let index: usize = match x3f_get_camf(x3f) {
        Some(index) => index,
        None => {
            return None;
        },
    };
    match &x3f.directory[index].data {
        Subsection::Camf(camf) => {
            let mut i: usize = 0;
            while i < camf.entries.len()
                invariant
                    i <= camf.entries@.len(),
                    camf.entries@ == camf_entries(*x3f),
                    forall|k: int|
                        0 <= k < camf.entries@.len() ==> (#[trigger] camf.entries@[k]).inv(),
                    find_entry(camf_entries(*x3f), name@, 0) == find_entry(
                        camf_entries(*x3f),
                        name@,
                        i as int,
                    ),
                decreases camf.entries@.len() - i,
            {
                if bytes_eq(name, camf.entries[i].name.as_slice()) {
                    return Some(&camf.entries[i]);
                }
                i = i + 1;
            }
            None
        },
        _ => None,
    }
}

/// The text with this name.
pub open spec fn camf_text(x3f: X3f, name: Seq<u8>) -> Option<Seq<u8>> {
    match camf_entry(x3f, name) {
        Some(entry) => match entry.value {
            CamfValue::Text { text, .. } => Some(text@),
            _ => None,
        },
        None => None,
    }
}

/// The text with this name.
pub fn x3f_get_camf_text<'b>(x3f: &'b X3f<'_>, name: &[u8]) -> (r: Option<&'b Vec<u8>>)
    requires
        x3f.inv(),
    ensures
        match r {
            Some(text) => camf_text(*x3f, name@) == Some(text@),
            None => camf_text(*x3f, name@) is None,
        },
{
    match camf_find_by_name(x3f, name) {
        Some(entry) => match &entry.value {
            CamfValue::Text { text, .. } => Some(text),
            _ => None,
        },
        None => None,
    }
}

/// The matrix with this name.
pub open spec fn camf_matrix(x3f: X3f, name: Seq<u8>) -> Option<CamfMatrix> {
    match camf_entry(x3f, name) {
        Some(entry) => match entry.value {
            CamfValue::Matrix(m) => Some(m),
            _ => None,
        },
        None => None,
    }
}

/// Whether a matrix holds this kind of numbers.
pub open spec fn has_type(m: CamfMatrix, typ: MatrixType) -> bool {
    match typ {
        MatrixType::Float => m.decoded is Float,
        MatrixType::Int => m.decoded is Int,
        MatrixType::Uint => m.decoded is Uint,
    }
}

/// Whether a matrix holds this kind of numbers.
fn is_type(m: &CamfMatrix, typ: MatrixType) -> (r: bool)
    ensures
        r == has_type(*m, typ),
{
    match (&m.decoded, typ) {
        (MatrixData::Float(_), MatrixType::Float) => true,
        (MatrixData::Int(_), MatrixType::Int) => true,
        (MatrixData::Uint(_), MatrixType::Uint) => true,
        _ => false,
    }
}

/// The matrix with this name, if it has this kind of numbers and one to three
/// dimensions, as many as asked for.
pub open spec fn camf_matrix_var(x3f: X3f, name: Seq<u8>, dims: int, typ: MatrixType) -> Option<
    CamfMatrix,
> {
    match camf_matrix(x3f, name) {
        Some(m) => if has_type(m, typ) && m.dims@.len() == dims && 1 <= dims <= 3 {
            Some(m)
        } else {
            None
        },
        None => None,
    }
}

/// The matrix with this name, if it has this kind of numbers and one to three
/// dimensions, as many as asked for.
pub fn x3f_get_camf_matrix_var<'b>(
    x3f: &'b X3f<'_>,
    name: &[u8],
    dims: usize,
    typ: MatrixType,
) -> (r: Option<&'b CamfMatrix>)
    requires
        x3f.inv(),
    ensures
        match r {
            Some(m) => camf_matrix_var(*x3f, name@, dims as int, typ) == Some(*m) && m.inv(),
            None => camf_matrix_var(*x3f, name@, dims as int, typ) is None,
        },
{
    match camf_find_by_name(x3f, name) {
        Some(entry) => match &entry.value {
            CamfValue::Matrix(m) => if is_type(m, typ) && m.dims.len() == dims && 1 <= dims && dims
                <= 3 {
                Some(m)
            } else {
                None
            },
            _ => None,
        },
        None => None,
    }
}

/// Whether a matrix has these dimensions; the ones that it lacks are zero.
pub open spec fn has_dims(m: CamfMatrix, dim0: u32, dim1: u32, dim2: u32) -> bool {
    let d = m.dims@;
    if d.len() == 3 {
        dim2 == d[2].size && dim1 == d[1].size && dim0 == d[0].size
    } else if d.len() == 2 {
        dim2 == 0 && dim1 == d[1].size && dim0 == d[0].size
    } else {
        d.len() == 1 && dim2 == 0 && dim1 == 0 && dim0 == d[0].size
    }
}

/// The numbers of the matrix with this name, if it has this kind of numbers and
/// these dimensions.
pub open spec fn camf_numbers(
    x3f: X3f,
    name: Seq<u8>,
    dim0: u32,
    dim1: u32,
    dim2: u32,
    typ: MatrixType,
) -> Option<MatrixData> {
    match camf_matrix(x3f, name) {
        Some(m) => if has_type(m, typ) && has_dims(m, dim0, dim1, dim2) {
            Some(m.decoded)
        } else {
            None
        },
        None => None,
    }
}

/// A vector of `n` numbers has `n` of them, unless a second dimension of size
/// zero leaves none.
pub proof fn lemma_vector(m: CamfMatrix, n: u32)
    requires
        m.inv(),
        has_dims(m, n, 0, 0),
    ensures
        m.decoded.len() == n || m.decoded.len() == 0,
{
    reveal_with_fuel(dims_product, 4);
    let d = m.dims@;
    if d.len() == 3 {
        assert(dims_product(d, 2) * 0 == 0);
    } else if d.len() == 2 {
        assert(dims_product(d, 1) * 0 == 0);
    }
}

/// Four numbers in a vector or a square are four, unless another dimension of
/// size zero leaves none.
pub proof fn lemma_four(m: CamfMatrix, dim0: u32, dim1: u32)
    requires
        m.inv(),
        has_dims(m, dim0, dim1, 0),
        dim0 == 4 && dim1 == 0 || dim0 == 2 && dim1 == 2,
    ensures
        m.decoded.len() == 4 || m.decoded.len() == 0,
{
    let d = m.dims@;
    if d.len() == 3 {
        assert(dims_product(d, 3) == dims_product(d, 2) * d[2].size);
        assert(dims_product(d, 2) * d[2].size == 0) by (nonlinear_arith)
            requires
                d[2].size == 0,
        ;
    } else if d.len() == 2 {
        assert(dims_product(d, 0) == 1);
        assert(dims_product(d, 1) == 1 * d[0].size);
        assert(dims_product(d, 2) == dims_product(d, 1) * d[1].size);
        if dim1 == 0 {
            assert(dims_product(d, 1) * d[1].size == 0) by (nonlinear_arith)
                requires
                    d[1].size == 0,
            ;
        }
    } else {
        assert(dims_product(d, 0) == 1);
        assert(dims_product(d, 1) == 1 * d[0].size);
    }
}

/// The numbers of the matrix with this name, if it has this kind of numbers and
/// these dimensions.
pub fn x3f_get_camf_matrix<'b>(
    x3f: &'b X3f<'_>,
    name: &[u8],
    dim0: u32,
    dim1: u32,
    dim2: u32,
    typ: MatrixType,
) -> (r: Option<&'b MatrixData>)
    requires
        x3f.inv(),
    ensures
        match r {
            Some(data) => {
                &&& camf_numbers(*x3f, name@, dim0, dim1, dim2, typ) == Some(*data)
                &&& camf_matrix(*x3f, name@)->0.inv()
            },
            None => camf_numbers(*x3f, name@, dim0, dim1, dim2, typ) is None,
        },
{
    match camf_find_by_name(x3f, name) {
        Some(entry) => match &entry.value {
            CamfValue::Matrix(m) => {
                if !is_type(m, typ) {
                    return None;
                }
                let d: &Vec<CamfDim> = &m.dims;
                let ok: bool = if d.len() == 3 {
                    dim2 == d[2].size && dim1 == d[1].size && dim0 == d[0].size
                } else if d.len() == 2 {
                    dim2 == 0 && dim1 == d[1].size && dim0 == d[0].size
                } else {
                    d.len() == 1 && dim2 == 0 && dim1 == 0 && dim0 == d[0].size
                };
                if ok {
                    Some(&m.decoded)
                } else {
                    None
                }
            },
            _ => None,
        },
        None => None,
    }
}

/// The unsigned number with this name; `default` where its matrix has no
/// elements.
pub open spec fn camf_unsigned(x3f: X3f, name: Seq<u8>, default: u32) -> Option<u32> {
    match camf_numbers(x3f, name, 1, 0, 0, MatrixType::Uint) {
        Some(MatrixData::Uint(v)) => Some(
            if v@.len() > 0 {
                v@[0]
            } else {
                default
            },
        ),
        _ => None,
    }
}

/// The signed number with this name; `default` where its matrix has no elements.
pub open spec fn camf_signed(x3f: X3f, name: Seq<u8>, default: i32) -> Option<i32> {
    match camf_numbers(x3f, name, 1, 0, 0, MatrixType::Int) {
        Some(MatrixData::Int(v)) => Some(
            if v@.len() > 0 {
                v@[0]
            } else {
                default
            },
        ),
        _ => None,
    }
}

/// The bits of the real number with this name; `default` where its matrix has no
/// elements.
pub open spec fn camf_float(x3f: X3f, name: Seq<u8>, default: u32) -> Option<u32> {
    match camf_numbers(x3f, name, 1, 0, 0, MatrixType::Float) {
        Some(MatrixData::Float(v)) => Some(
            if v@.len() > 0 {
                v@[0]
            } else {
                default
            },
        ),
        _ => None,
    }
}

/// The three signed numbers with this name; `default` where their matrix has no
/// elements.
pub open spec fn camf_signed_vector(x3f: X3f, name: Seq<u8>, default: Seq<i32>) -> Option<
    Seq<i32>,
> {
    match camf_numbers(x3f, name, 3, 0, 0, MatrixType::Int) {
        Some(MatrixData::Int(v)) => Some(
            if v@.len() > 0 {
                v@
            } else {
                default
            },
        ),
        _ => None,
    }
}

/// The bits of the three real numbers with this name; `default` where their
/// matrix has no elements.
pub open spec fn camf_float_vector(x3f: X3f, name: Seq<u8>, default: Seq<u32>) -> Option<
    Seq<u32>,
> {
    match camf_numbers(x3f, name, 3, 0, 0, MatrixType::Float) {
        Some(MatrixData::Float(v)) => Some(
            if v@.len() > 0 {
                v@
            } else {
                default
            },
        ),
        _ => None,
    }
}

/// Sets `val` to the unsigned number with this name, if there is one.
pub fn x3f_get_camf_unsigned(x3f: &X3f<'_>, name: &[u8], val: &mut u32) -> (r: bool)
    requires
        x3f.inv(),
    ensures
        match camf_unsigned(*x3f, name@, *old(val)) {
            Some(v) => r && *final(val) == v,
            None => !r && *final(val) == *old(val),
        },
{
    match x3f_get_camf_matrix(x3f, name, 1, 0, 0, MatrixType::Uint) {
        Some(MatrixData::Uint(v)) => {
            if v.len() > 0 {
                *val = v[0];
            }
            true
        },
        _ => false,
    }
}

/// Sets `val` to the signed number with this name, if there is one.
pub fn x3f_get_camf_signed(x3f: &X3f<'_>, name: &[u8], val: &mut i32) -> (r: bool)
    requires
        x3f.inv(),
    ensures
        match camf_signed(*x3f, name@, *old(val)) {
            Some(v) => r && *final(val) == v,
            None => !r && *final(val) == *old(val),
        },
{
    match x3f_get_camf_matrix(x3f, name, 1, 0, 0, MatrixType::Int) {
        Some(MatrixData::Int(v)) => {
            if v.len() > 0 {
                *val = v[0];
            }
            true
        },
        _ => false,
    }
}

/// Sets `val` to the bits of the real number with this name, if there is one.
pub fn x3f_get_camf_float(x3f: &X3f<'_>, name: &[u8], val: &mut u32) -> (r: bool)
    requires
        x3f.inv(),
    ensures
        match camf_float(*x3f, name@, *old(val)) {
            Some(v) => r && *final(val) == v,
            None => !r && *final(val) == *old(val),
        },
{
    match x3f_get_camf_matrix(x3f, name, 1, 0, 0, MatrixType::Float) {
        Some(MatrixData::Float(v)) => {
            if v.len() > 0 {
                *val = v[0];
            }
            true
        },
        _ => false,
    }
}

/// Sets `val` to the three signed numbers with this name, if there are any.
pub fn x3f_get_camf_signed_vector(x3f: &X3f<'_>, name: &[u8], val: &mut [i32; 3]) -> (r: bool)
    requires
        x3f.inv(),
    ensures
        match camf_signed_vector(*x3f, name@, old(val)@) {
            Some(v) => r && final(val)@ == v,
            None => !r && final(val)@ == old(val)@,
        },
{
    match x3f_get_camf_matrix(x3f, name, 3, 0, 0, MatrixType::Int) {
        Some(MatrixData::Int(v)) => {
            proof {
                lemma_vector(camf_matrix(*x3f, name@)->0, 3);
            }
            if v.len() > 0 {
                *val = [v[0], v[1], v[2]];
                assert(val@ =~= v@);
            }
            true
        },
        _ => false,
    }
}

/// Sets `val` to the bits of the three real numbers with this name, if there are
/// any.
pub fn x3f_get_camf_float_vector(x3f: &X3f<'_>, name: &[u8], val: &mut [u32; 3]) -> (r: bool)
    requires
        x3f.inv(),
    ensures
        match camf_float_vector(*x3f, name@, old(val)@) {
            Some(v) => r && final(val)@ == v,
            None => !r && final(val)@ == old(val)@,
        },
{
    match x3f_get_camf_matrix(x3f, name, 3, 0, 0, MatrixType::Float) {
        Some(MatrixData::Float(v)) => {
            proof {
                lemma_vector(camf_matrix(*x3f, name@)->0, 3);
            }
            if v.len() > 0 {
                *val = [v[0], v[1], v[2]];
                assert(val@ =~= v@);
            }
            true
        },
        _ => false,
    }
}

/// Whether there is a property list with this name.
pub open spec fn has_property_list(x3f: X3f, list: Seq<u8>) -> bool {
    match camf_entry(x3f, list) {
        Some(entry) => entry.value is Property,
        None => false,
    }
}

/// The names and values of the property list with this name.
pub fn x3f_get_camf_property_list<'b>(x3f: &'b X3f<'_>, list: &[u8]) -> (r: Option<
    (&'b Vec<Vec<u8>>, &'b Vec<Vec<u8>>),
>)
    requires
        x3f.inv(),
    ensures
        match r {
            Some((names, values)) => {
                &&& has_property_list(*x3f, list@)
                &&& camf_entry(*x3f, list@)->0.value == (CamfValue::Property {
                    names: *names,
                    values: *values,
                })
                &&& names@.len() == values@.len()
            },
            None => !has_property_list(*x3f, list@),
        },
{
    match camf_find_by_name(x3f, list) {
        Some(entry) => match &entry.value {
            CamfValue::Property { names, values } => Some((names, values)),
            _ => None,
        },
        None => None,
    }
}

/// The place of the first of the names from `i` on that is `name`.
pub open spec fn find_name(names: Seq<Vec<u8>>, name: Seq<u8>, i: int) -> Option<int>
    decreases names.len() - i,
{
    if !(0 <= i < names.len()) {
        None
    } else if names[i]@ == name {
        Some(i)
    } else {
        find_name(names, name, i + 1)
    }
}

/// The value of a property in the property list with this name.
pub open spec fn camf_property(x3f: X3f, list: Seq<u8>, name: Seq<u8>) -> Option<Seq<u8>> {
    match camf_entry(x3f, list) {
        Some(entry) => match entry.value {
            CamfValue::Property { names, values } => match find_name(names@, name, 0) {
                Some(i) => Some(values@[i]@),
                None => None,
            },
            _ => None,
        },
        None => None,
    }
}

/// The value of a property in the property list with this name.
pub fn x3f_get_camf_property<'b>(x3f: &'b X3f<'_>, list: &[u8], name: &[u8]) -> (r: Option<
    &'b Vec<u8>,
>)
    requires
        x3f.inv(),
    ensures
        match r {
            Some(value) => camf_property(*x3f, list@, name@) == Some(value@),
            None => camf_property(*x3f, list@, name@) is None,
        },
{
    match x3f_get_camf_property_list(x3f, list) {
        Some((names, values)) => {
            let mut i: usize = 0;
            while i < names.len()
                invariant
                    i <= names@.len(),
                    names@.len() == values@.len(),
                    camf_property(*x3f, list@, name@) == (match find_name(names@, name@, 0) {
                        Some(k) => Some(values@[k]@),
                        None => None::<Seq<u8>>,
                    }),
                    find_name(names@, name@, 0) == find_name(names@, name@, i as int),
                decreases names@.len() - i,
            {
                if bytes_eq(names[i].as_slice(), name) {
                    return Some(&values[i]);
                }
                i = i + 1;
            }
            None
        },
        None => None,
    }
}

/// The properties of the container's property section; none where it is missing
/// or not loaded.
pub open spec fn prop_entries(x3f: X3f) -> Seq<Property> {
    match find_section(x3f.directory@, X3F_SECP, 0, 0) {
        Some(i) => match x3f.directory@[i].data {
            Subsection::PropertyList(pl) => pl.properties@,
            _ => Seq::empty(),
        },
        None => Seq::empty(),
    }
}

/// The place of the first property from `i` on with this name.
pub open spec fn find_property(properties: Seq<Property>, name: Seq<u8>, i: int) -> Option<int>
    decreases properties.len() - i,
{
    if !(0 <= i < properties.len()) {
        None
    } else if properties[i].name_utf8@ == name {
        Some(i)
    } else {
        find_property(properties, name, i + 1)
    }
}

/// The value of the property with this name.
pub open spec fn prop_entry(x3f: X3f, name: Seq<u8>) -> Option<Seq<u8>> {
    match find_property(prop_entries(x3f), name, 0) {
        Some(i) => Some(prop_entries(x3f)[i].value_utf8@),
        None => None,
    }
}

/// The value of the property with this name.
pub fn x3f_get_prop_entry<'b>(x3f: &'b X3f<'_>, name: &[u8]) -> (r: Option<&'b Vec<u8>>)
    ensures
        match r {
            Some(value) => prop_entry(*x3f, name@) == Some(value@),
            None => prop_entry(*x3f, name@) is None,
        },
{
    let index: usize = match x3f_get_prop(x3f) {
        Some(index) => index,
        None => {
            return None;
        },
    };
    match &x3f.directory[index].data {
        Subsection::PropertyList(pl) => {
            let mut i: usize = 0;
            while i < pl.properties.len()
                invariant
                    i <= pl.properties@.len(),
                    pl.properties@ == prop_entries(*x3f),
                    find_property(prop_entries(*x3f), name@, 0) == find_property(
                        prop_entries(*x3f),
                        name@,
                        i as int,
                    ),
                decreases pl.properties@.len() - i,
            {
                if bytes_eq(name, pl.properties[i].name_utf8.as_slice()) {
                    return Some(&pl.properties[i].value_utf8);
                }
                i = i + 1;
            }
            None
        },
        _ => None,
    }
}

/// The name of a numbered white balance.
pub open spec fn wb_name(code: u32) -> Seq<u8> {
    (if code == 2 {
        "Sunlight"
    } else if code == 3 {
        "Shadow"
    } else if code == 4 {
        "Overcast"
    } else if code == 5 {
        "Incandescent"
    } else if code == 6 {
        "Florescent"
    } else if code == 7 {
        "Flash"
    } else if code == 8 {
        "Custom"
    } else if code == 11 {
        "ColorTemp"
    } else if code == 12 {
        "AutoLSP"
    } else {
        "Auto"
    }).spec_bytes()
}

/// The white balance that the picture was taken with: by its number in the
/// metadata, or else by its name in the header.
pub open spec fn spec_wb(x3f: X3f) -> Seq<u8> {
    match camf_unsigned(x3f, "WhiteBalance".spec_bytes(), 0) {
        Some(code) => wb_name(code),
        None => cstr(x3f.header.white_balance@, 0),
    }
}

/// The white balance that the picture was taken with.
pub fn x3f_get_wb(x3f: &X3f<'_>) -> (r: Vec<u8>)
    requires
        x3f.inv(),
    ensures
        r@ == spec_wb(*x3f),
{
    let mut code: u32 = 0;
    if x3f_get_camf_unsigned(x3f, "WhiteBalance".as_bytes(), &mut code) {
        let name: &str = match code {
            2 => "Sunlight",
            3 => "Shadow",
            4 => "Overcast",
            5 => "Incandescent",
            6 => "Florescent",
            7 => "Flash",
            8 => "Custom",
            11 => "ColorTemp",
            12 => "AutoLSP",
            _ => "Auto",
        };
        return vstd::slice::slice_to_vec(name.as_bytes());
    }
    cstr_of(x3f.header.white_balance.as_slice())
}

/// The bits of the numbers of the matrix that a list names for a white balance,
/// if it has these dimensions. A list that lacks "Daylight" is asked for
/// "Sunlight".
pub open spec fn matrix_for_wb(x3f: X3f, list: Seq<u8>, wb: Seq<u8>, dim0: u32, dim1: u32) -> Option<
    Seq<u32>,
> {
    let name = match camf_property(x3f, list, wb) {
        Some(name) => Some(name),
        None => if wb == "Daylight".spec_bytes() {
            camf_property(x3f, list, "Sunlight".spec_bytes())
        } else {
            None
        },
    };
    match name {
        Some(name) => match camf_numbers(x3f, name, dim0, dim1, 0, MatrixType::Float) {
            Some(MatrixData::Float(v)) => Some(v@),
            _ => None,
        },
        None => None,
    }
}

/// The bits of the numbers of the matrix that a list names for a white balance.
pub fn x3f_get_camf_matrix_for_wb<'b>(
    x3f: &'b X3f<'_>,
    list: &[u8],
    wb: &[u8],
    dim0: u32,
    dim1: u32,
) -> (r: Option<&'b Vec<u32>>)
    requires
        x3f.inv(),
    ensures
        match r {
            Some(v) => matrix_for_wb(*x3f, list@, wb@, dim0, dim1) == Some(v@),
            None => matrix_for_wb(*x3f, list@, wb@, dim0, dim1) is None,
        },
{
    let name: &Vec<u8> = match x3f_get_camf_property(x3f, list, wb) {
        Some(name) => name,
        None => {
            if !bytes_eq(wb, "Daylight".as_bytes()) {
                return None;
            }
            match x3f_get_camf_property(x3f, list, "Sunlight".as_bytes()) {
                Some(name) => name,
                None => {
                    return None;
                },
            }
        },
    };
    match x3f_get_camf_matrix(x3f, name.as_slice(), dim0, dim1, 0, MatrixType::Float) {
        Some(MatrixData::Float(v)) => Some(v),
        _ => None,
    }
}

/// Whether the camera has the TRUE engine: its metadata list colour corrections
/// and gains by white balance.
pub open spec fn spec_is_true_engine(x3f: X3f) -> bool {
    &&& {
        ||| has_property_list(x3f, "WhiteBalanceColorCorrections".spec_bytes())
        ||| has_property_list(x3f, "DP1_WhiteBalanceColorCorrections".spec_bytes())
    }
    &&& {
        ||| has_property_list(x3f, "WhiteBalanceGains".spec_bytes())
        ||| has_property_list(x3f, "DP1_WhiteBalanceGains".spec_bytes())
    }
}

/// Whether the camera has the TRUE engine.
pub fn is_true_engine(x3f: &X3f<'_>) -> (r: bool)
    requires
        x3f.inv(),
    ensures
        r == spec_is_true_engine(*x3f),
{
    let corrections: bool = x3f_get_camf_property_list(
        x3f,
        "WhiteBalanceColorCorrections".as_bytes(),
    ).is_some() || x3f_get_camf_property_list(
        x3f,
        "DP1_WhiteBalanceColorCorrections".as_bytes(),
    ).is_some();
    let gains: bool = x3f_get_camf_property_list(x3f, "WhiteBalanceGains".as_bytes()).is_some()
        || x3f_get_camf_property_list(x3f, "DP1_WhiteBalanceGains".as_bytes()).is_some();
    corrections && gains
}

/// The bits per sample that the metadata state.
pub open spec fn image_depth(x3f: X3f) -> Option<u32> {
    camf_unsigned(x3f, "ImageDepth".spec_bytes(), 0)
}

/// The largest raw sample per colour: from the bits per sample, or else from the
/// saturation levels. `default` stands for saturation levels without elements.
pub open spec fn max_raw(x3f: X3f, default: Seq<i32>) -> Option<Seq<u32>> {
    match image_depth(x3f) {
        Some(depth) => {
            let max = (pow2(depth as nat) - 1) as u32;
            Some(seq![max, max, max])
        },
        None => {
            let name = if spec_is_true_engine(x3f) {
                "RawSaturationLevel"
            } else {
                "SaturationLevel"
            };
            match camf_signed_vector(x3f, name.spec_bytes(), default) {
                Some(v) => Some(Seq::new(3, |i: int| v[i] as u32)),
                None => None,
            }
        },
    }
}

/// Sets `levels` to the largest raw sample per colour, if the metadata state it.
pub fn x3f_get_max_raw(x3f: &X3f<'_>, levels: &mut [u32; 3]) -> (r: bool)
    requires
        x3f.inv(),
        image_depth(*x3f) is Some ==> image_depth(*x3f)->0 < 32,
    ensures
        match max_raw(*x3f, Seq::new(3, |i: int| old(levels)@[i] as i32)) {
            Some(v) => r && final(levels)@ == v,
            None => !r && final(levels)@ == old(levels)@,
        },
{
    let mut depth: u32 = 0;
    if x3f_get_camf_unsigned(x3f, "ImageDepth".as_bytes(), &mut depth) {
        let mut span: u64 = 1;
        let mut bits: u32 = 0;
        proof {
            lemma2_to64();
        }
        while bits < depth
            invariant
                bits <= depth < 32,
                span == pow2(bits as nat),
                span <= 0x8000_0000,
                bits < 31 || span == 0x8000_0000,
            decreases depth - bits,
        {
            span = span * 2;
            bits = bits + 1;
            proof {
                lemma_pow2_unfold(bits as nat);
                lemma2_to64();
                if bits < 31 {
                    vstd::arithmetic::power2::lemma_pow2_strictly_increases(bits as nat, 31);
                }
            }
        }
        let max: u32 = (span - 1) as u32;
        *levels = [max, max, max];
        assert(levels@ =~= seq![max, max, max]);
        return true;
    }
    let key: &str = if is_true_engine(x3f) {
        "RawSaturationLevel"
    } else {
        "SaturationLevel"
    };
    let mut v: [i32; 3] = [levels[0] as i32, levels[1] as i32, levels[2] as i32];
    let ghost default = Seq::new(3, |i: int| old(levels)@[i] as i32);
    assert(v@ =~= default);
    if x3f_get_camf_signed_vector(x3f, key.as_bytes(), &mut v) {
        *levels = [v[0] as u32, v[1] as u32, v[2] as u32];
        assert(levels@ =~= Seq::new(3, |i: int| v@[i] as u32));
        true
    } else {
        false
    }
}

/// A name that stands for several entries stands for the first of them, and one that
/// stands for none is not found.
pub proof fn law_the_first_entry_of_a_name_is_found(x3f: X3f, name: Seq<u8>, from: int, i: int)
    requires
        0 <= from <= i <= camf_entries(x3f).len(),
        forall|k: int| from <= k < i ==> (#[trigger] camf_entries(x3f)[k]).name@ != name,
        i < camf_entries(x3f).len() ==> camf_entries(x3f)[i].name@ == name,
    ensures
        find_entry(camf_entries(x3f), name, from) == (if i < camf_entries(x3f).len() {
            Some(i)
        } else {
            None
        }),
        from == 0 ==> camf_entry(x3f, name) == (if i < camf_entries(x3f).len() {
            Some(camf_entries(x3f)[i])
        } else {
            None
        }),
    decreases i - from,
{
    if from < i {
        let entry = camf_entries(x3f)[from];
        law_the_first_entry_of_a_name_is_found(x3f, name, from + 1, i);
    }
}

/// A text is found by the first entry of its name, a property by the first of its name
/// in the list of that name.
pub proof fn law_texts_and_properties_are_found(
    x3f: X3f,
    name: Seq<u8>,
    i: int,
    property: Seq<u8>,
    j: int,
)
    requires
        0 <= i < camf_entries(x3f).len(),
        forall|k: int| 0 <= k < i ==> (#[trigger] camf_entries(x3f)[k]).name@ != name,
        camf_entries(x3f)[i].name@ == name,
    ensures
        camf_entries(x3f)[i].value matches CamfValue::Text { text, .. } ==> camf_text(x3f, name)
            == Some(text@),
        camf_entries(x3f)[i].value matches CamfValue::Property { names, values } ==> {
            &&& camf_text(x3f, name) is None
            &&& 0 <= j < names@.len() && names@[j]@ == property && (forall|k: int|
                0 <= k < j ==> (#[trigger] names@[k])@ != property) ==> camf_property(
                x3f,
                name,
                property,
            ) == Some(values@[j]@)
            &&& (forall|k: int| 0 <= k < names@.len() ==> (#[trigger] names@[k])@ != property)
                ==> camf_property(x3f, name, property) is None
        },
{
    law_the_first_entry_of_a_name_is_found(x3f, name, 0, i);
    if let CamfValue::Property { names, values } = camf_entries(x3f)[i].value {
        if 0 <= j < names@.len() && names@[j]@ == property && (forall|k: int|
            0 <= k < j ==> (#[trigger] names@[k])@ != property) {
            lemma_find_name(names@, property, 0, j);
        }
        if forall|k: int| 0 <= k < names@.len() ==> (#[trigger] names@[k])@ != property {
            lemma_find_name(names@, property, 0, names@.len() as int);
        }
    }
}

proof fn lemma_find_name(names: Seq<Vec<u8>>, name: Seq<u8>, from: int, i: int)
    requires
        0 <= from <= i <= names.len(),
        forall|k: int| from <= k < i ==> (#[trigger] names[k])@ != name,
        i < names.len() ==> names[i]@ == name,
    ensures
        find_name(names, name, from) == (if i < names.len() {
            Some(i)
        } else {
            None
        }),
    decreases i - from,
{
    if from < i {
        let n = names[from];
        lemma_find_name(names, name, from + 1, i);
    }
}

/// A number is found by the first entry of its name, if that is a matrix of the one kind
/// of numbers that is asked for with one element; three numbers, if it has three.
pub proof fn law_numbers_are_found(x3f: X3f, name: Seq<u8>, i: int, m: CamfMatrix)
    requires
        0 <= i < camf_entries(x3f).len(),
        forall|k: int| 0 <= k < i ==> (#[trigger] camf_entries(x3f)[k]).name@ != name,
        camf_entries(x3f)[i].name@ == name,
        camf_entries(x3f)[i].value == CamfValue::Matrix(m),
        m.dims@.len() == 1,
        m.decoded.len() == m.dims@[0].size > 0,
    ensures
        match m.decoded {
            MatrixData::Uint(v) => {
                &&& forall|default: u32| #[trigger]
                    camf_unsigned(x3f, name, default) == (if v@.len() == 1 {
                        Some(v@[0])
                    } else {
                        None
                    })
                &&& forall|default: i32| #[trigger] camf_signed(x3f, name, default) is None
                &&& forall|default: u32| #[trigger] camf_float(x3f, name, default) is None
            },
            MatrixData::Int(v) => {
                &&& forall|default: i32| #[trigger]
                    camf_signed(x3f, name, default) == (if v@.len() == 1 {
                        Some(v@[0])
                    } else {
                        None
                    })
                &&& forall|default: Seq<i32>| #[trigger]
                    camf_signed_vector(x3f, name, default) == (if v@.len() == 3 {
                        Some(v@)
                    } else {
                        None
                    })
                &&& forall|default: u32| #[trigger] camf_unsigned(x3f, name, default) is None
                &&& forall|default: u32| #[trigger] camf_float(x3f, name, default) is None
            },
            MatrixData::Float(v) => {
                &&& forall|default: u32| #[trigger]
                    camf_float(x3f, name, default) == (if v@.len() == 1 {
                        Some(v@[0])
                    } else {
                        None
                    })
                &&& forall|default: Seq<u32>| #[trigger]
                    camf_float_vector(x3f, name, default) == (if v@.len() == 3 {
                        Some(v@)
                    } else {
                        None
                    })
                &&& forall|default: u32| #[trigger] camf_unsigned(x3f, name, default) is None
                &&& forall|default: i32| #[trigger] camf_signed(x3f, name, default) is None
            },
        },
{
    law_the_first_entry_of_a_name_is_found(x3f, name, 0, i);
}

/// The numbers of a matrix are found if its kind and all of its dimensions, in their
/// order, are those that are asked for, and otherwise not.
pub proof fn law_matrices_are_found_by_their_shape(
    x3f: X3f,
    name: Seq<u8>,
    i: int,
    m: CamfMatrix,
    asked: Seq<u32>,
    typ: MatrixType,
)
    requires
        0 <= i < camf_entries(x3f).len(),
        forall|k: int| 0 <= k < i ==> (#[trigger] camf_entries(x3f)[k]).name@ != name,
        camf_entries(x3f)[i].name@ == name,
        camf_entries(x3f)[i].value == CamfValue::Matrix(m),
        1 <= asked.len() <= 3,
        forall|k: int| 0 <= k < asked.len() ==> #[trigger] asked[k] > 0,
        forall|k: int| 0 <= k < m.dims@.len() ==> (#[trigger] m.dims@[k]).size > 0,
    ensures
        ({
            let d1 = if asked.len() > 1 {
                asked[1]
            } else {
                0
            };
            let d2 = if asked.len() > 2 {
                asked[2]
            } else {
                0
            };
            let same = asked.len() == m.dims@.len() && forall|k: int|
                0 <= k < asked.len() ==> #[trigger] asked[k] == m.dims@[k].size;
            let kind = match typ {
                MatrixType::Float => m.decoded is Float,
                MatrixType::Int => m.decoded is Int,
                MatrixType::Uint => m.decoded is Uint,
            };
            camf_numbers(x3f, name, asked[0], d1, d2, typ) == (if same && kind {
                Some(m.decoded)
            } else {
                None
            })
        }),
{
    law_the_first_entry_of_a_name_is_found(x3f, name, 0, i);
    let d = m.dims@;
    let a0 = asked[0];
    if d.len() >= 1 {
        let s = d[0].size;
    }
    if asked.len() > 1 {
        let a = asked[1];
    }
    if asked.len() > 2 {
        let a = asked[2];
    }
    if d.len() > 1 {
        let s = d[1].size;
    }
    if d.len() > 2 {
        let s = d[2].size;
    }
}

/// A property of the container is found by the first of its name.
pub proof fn law_the_first_property_of_a_name_is_found(
    x3f: X3f,
    name: Seq<u8>,
    from: int,
    i: int,
)
    requires
        0 <= from <= i <= prop_entries(x3f).len(),
        forall|k: int| from <= k < i ==> (#[trigger] prop_entries(x3f)[k]).name_utf8@ != name,
        i < prop_entries(x3f).len() ==> prop_entries(x3f)[i].name_utf8@ == name,
    ensures
        find_property(prop_entries(x3f), name, from) == (if i < prop_entries(x3f).len() {
            Some(i)
        } else {
            None
        }),
        from == 0 ==> prop_entry(x3f, name) == (if i < prop_entries(x3f).len() {
            Some(prop_entries(x3f)[i].value_utf8@)
        } else {
            None
        }),
    decreases i - from,
{
    if from < i {
        let p = prop_entries(x3f)[from];
        law_the_first_property_of_a_name_is_found(x3f, name, from + 1, i);
    }
}

/// The entries that are looked up are those of the first metadata section, and the
/// properties those of the first property section.
pub proof fn law_the_first_sections_are_looked_up(x3f: X3f, i: int, j: int)
    requires
        0 <= i < x3f.directory@.len(),
        0 <= j < x3f.directory@.len(),
        x3f.directory@[i].identifier == X3F_SECC,
        x3f.directory@[j].identifier == X3F_SECP,
        forall|k: int| 0 <= k < i ==> (#[trigger] x3f.directory@[k]).identifier != X3F_SECC,
        forall|k: int| 0 <= k < j ==> (#[trigger] x3f.directory@[k]).identifier != X3F_SECP,
    ensures
        x3f.directory@[i].data matches Subsection::Camf(camf) ==> camf_entries(x3f)
            == camf.entries@,
        x3f.directory@[j].data matches Subsection::PropertyList(list) ==> prop_entries(x3f)
            == list.properties@,
{
    law_the_first_section_is_found(x3f.directory@, X3F_SECC, 0, 0, i);
    law_the_first_section_is_found(x3f.directory@, X3F_SECP, 0, 0, j);
}

/// With a stated depth, the largest raw sample is the largest number of so many bits.
pub proof fn law_largest_samples_have_the_stated_depth(
    x3f: X3f,
    default: Seq<i32>,
    depth: u32,
    v: u32,
    color: int,
)
    requires
        image_depth(x3f) == Some(depth),
        depth < 32,
        0 <= color < 3,
    ensures
        max_raw(x3f, default) is Some,
        max_raw(x3f, default)->0.len() == 3,
        v <= max_raw(x3f, default)->0[color] <==> v < pow2(depth as nat),
{
    lemma2_to64();
    if depth < 31 {
        vstd::arithmetic::power2::lemma_pow2_strictly_increases(depth as nat, 31);
    }
    vstd::arithmetic::power2::lemma_pow2_pos(depth as nat);
}

/// The numbers that the metadata give white balances stand for their names; where the
/// metadata give none, the header names it.
pub proof fn law_white_balances_have_numbers(x3f: X3f, code: u32)
    ensures
        ({
            let stated = camf_unsigned(x3f, "WhiteBalance".spec_bytes(), 0);
            &&& stated == Some(2u32) ==> spec_wb(x3f) == "Sunlight".spec_bytes()
            &&& stated == Some(3u32) ==> spec_wb(x3f) == "Shadow".spec_bytes()
            &&& stated == Some(4u32) ==> spec_wb(x3f) == "Overcast".spec_bytes()
            &&& stated == Some(5u32) ==> spec_wb(x3f) == "Incandescent".spec_bytes()
            &&& stated == Some(6u32) ==> spec_wb(x3f) == "Florescent".spec_bytes()
            &&& stated == Some(7u32) ==> spec_wb(x3f) == "Flash".spec_bytes()
            &&& stated == Some(8u32) ==> spec_wb(x3f) == "Custom".spec_bytes()
            &&& stated == Some(11u32) ==> spec_wb(x3f) == "ColorTemp".spec_bytes()
            &&& stated == Some(12u32) ==> spec_wb(x3f) == "AutoLSP".spec_bytes()
            &&& stated == Some(code) && (code < 2 || 8 < code < 11 || 12 < code) ==> spec_wb(x3f)
                == "Auto".spec_bytes()
            &&& stated is None ==> spec_wb(x3f) == cstr(x3f.header.white_balance@, 0)
        }),
{
}

/// A matrix for a white balance is the one that the list names for it, if it holds real
/// numbers and has the dimensions; a list without "Daylight" is asked for "Sunlight".
pub proof fn law_lists_name_matrices(
    x3f: X3f,
    list: Seq<u8>,
    wb: Seq<u8>,
    name: Seq<u8>,
    dim0: u32,
    dim1: u32,
    v: Vec<u32>,
)
    requires
        camf_numbers(x3f, name, dim0, dim1, 0, MatrixType::Float) == Some(MatrixData::Float(v)),
    ensures
        camf_property(x3f, list, wb) == Some(name) ==> matrix_for_wb(x3f, list, wb, dim0, dim1)
            == Some(v@),
        camf_property(x3f, list, "Daylight".spec_bytes()) is None && camf_property(
            x3f,
            list,
            "Sunlight".spec_bytes(),
        ) == Some(name) ==> matrix_for_wb(x3f, list, "Daylight".spec_bytes(), dim0, dim1) == Some(
            v@,
        ),
        camf_property(x3f, list, wb) is None && wb != "Daylight".spec_bytes() ==> matrix_for_wb(
            x3f,
            list,
            wb,
            dim0,
            dim1,
        ) is None,
{
}

} // verus!
