//! Loading of sections, with clean-up after a failed load.

use crate::camf::{decode_camf, Camf, CamfBody, CamfEntry};
use crate::camf_entries::{camf_error, camf_is, lemma_entries_inv, setup_camf};
use crate::control::{is_cancelled, Control, Error};
use crate::huffman::LegacyOffset;
use crate::io::{
    container_error, container_is, new_from_file, DirectoryEntry, Subsection, X3f, X3F_SECC,
    X3F_SECI, X3F_SECP,
};
use crate::load::{
    image_fails, image_loaded, lemma_header_decides, load_image, same_image_header,
};
use crate::parse::{Input, MAX_ALLOCATION};
use crate::properties::{load_properties, PropertyList};
use crate::types::{
    HuffNode, HuffTree, TrueHuffmanElement, X3F_IMAGE_THUMB_JPEG, X3F_IMAGE_THUMB_PLAIN,
};
use vstd::prelude::*;

verus! {

/// The sizes of the section headers.
pub const X3F_PROPERTY_LIST_HEADER_SIZE: u32 = 24;
pub const X3F_IMAGE_HEADER_SIZE: u32 = 28;
pub const X3F_CAMF_HEADER_SIZE: u32 = 28;

/// The statuses of the plain entry points.
pub const X3F_OK: u32 = 0;
pub const X3F_ARGUMENT_ERROR: u32 = 1;
pub const X3F_INFILE_ERROR: u32 = 2;
pub const X3F_OUTFILE_ERROR: u32 = 3;
pub const X3F_INTERNAL_ERROR: u32 = 4;

/// What keeps a section's body from being reached.
pub open spec fn section_input_error(len: int, de: DirectoryEntry, header_size: u32) -> Option<
    Error,
> {
    let start = de.input.offset + header_size;
    let end = de.input.offset + de.input.size;
    if de.input.size < header_size {
        Some(Error::InvalidData("truncated section header"))
    } else if start > len {
        Some(Error::InvalidData("offset outside input"))
    } else if end > len {
        Some(Error::InvalidData("section outside input"))
    } else {
        None
    }
}

/// A cursor over the body of a section.
fn section_input<'a>(
    file: &'a [u8],
    de: &DirectoryEntry,
    header_size: u32,
    control: Control<'a>,
) -> (r: Result<Input<'a>, Error>)
    ensures
        match r {
            Ok(input) => {
                &&& section_input_error(file@.len() as int, *de, header_size) is None
                &&& input.inv()
                &&& input.bytes() == file@
                &&& input.pos() == de.input.offset + header_size
                &&& input.bound() == de.input.offset + de.input.size
                &&& input.guard() == control
                &&& control.may_read(false)
            },
            Err(Error::Cancelled) => control.may_read(true),
            Err(e) => section_input_error(file@.len() as int, *de, header_size) == Some(e),
        },
{
    if de.input.size < header_size {
        return Err(Error::InvalidData("truncated section header"));
    }
    let mut input: Input<'a> = Input::new(Some(file), control)?;
    let start: u64 = de.input.offset as u64 + header_size as u64;
    let end: u64 = de.input.offset as u64 + de.input.size as u64;
    input.seek(start)?;
    input.limit(end)?;
    Ok(input)
}

/// Whether a section's body needs no loading.
pub open spec fn is_loaded(de: DirectoryEntry) -> bool {
    match de.data {
        Subsection::PropertyList(pl) => pl.data@.len() > 0,
        Subsection::Image(id) => {
            &&& id.data@.len() > 0
            &&& {
                ||| id.tru is Some
                ||| id.huffman is Some
                ||| id.type_format == X3F_IMAGE_THUMB_JPEG
                ||| id.type_format == X3F_IMAGE_THUMB_PLAIN
            }
        },
        Subsection::Camf(camf) => camf.data@.len() > 0,
        Subsection::Other => false,
    }
}

/// Whether none of a section's body is held in memory.
pub open spec fn is_unloaded(de: DirectoryEntry) -> bool {
    match de.data {
        Subsection::PropertyList(pl) => pl.unloaded(),
        Subsection::Image(id) => id.unloaded(),
        Subsection::Camf(camf) => camf.unloaded(),
        Subsection::Other => true,
    }
}

/// The header of a metadata section, which loading leaves alone.
pub open spec fn same_camf_header(a: Camf, b: Camf) -> bool {
    &&& a.type_ == b.type_
    &&& a.val0 == b.val0
    &&& a.val1 == b.val1
    &&& a.val2 == b.val2
    &&& a.val3 == b.val3
}

/// The same section, but for what is loaded of its body.
pub open spec fn same_section(a: DirectoryEntry, b: DirectoryEntry) -> bool {
    &&& a.input == b.input
    &&& a.output == b.output
    &&& a.type_ == b.type_
    &&& a.identifier == b.identifier
    &&& a.version == b.version
    &&& match (a.data, b.data) {
        (Subsection::PropertyList(p), Subsection::PropertyList(q)) => p.same_header(q),
        (Subsection::Image(p), Subsection::Image(q)) => same_image_header(p, q),
        (Subsection::Camf(p), Subsection::Camf(q)) => same_camf_header(p, q),
        (Subsection::Other, Subsection::Other) => true,
        _ => false,
    }
}

/// Drops what is loaded of a section's body.
pub fn cleanup_entry(de: &mut DirectoryEntry)
    ensures
        same_section(*final(de), *old(de)),
        is_unloaded(*final(de)),
        old(de).inv() ==> final(de).inv(),
{
    match &mut de.data {
        Subsection::PropertyList(pl) => {
            pl.properties = Vec::new();
            pl.data = Vec::new();
        },
        Subsection::Image(id) => {
            id.huffman = None;
            id.tru = None;
            id.quattro = None;
            id.data = Vec::new();
        },
        Subsection::Camf(camf) => {
            camf.data = Vec::new();
            camf.table = Vec::new();
            camf.tree = HuffTree::empty();
            camf.decoding_size = 0;
            camf.decoded_data = Vec::new();
            camf.entries = Vec::new();
        },
        Subsection::Other => {},
    }
}

/// Whether `mid` is the metadata section with its body read but not decoded.
pub open spec fn camf_read(mid: Camf, camf: Camf, bytes: Seq<u8>, start: int, end: int) -> bool {
    same_camf_header(mid, camf) && mid.data@ == bytes.subrange(start, end)
}

/// Whether loading a metadata section from its body fails with `error`.
pub open spec fn camf_fails(
    camf: Camf,
    bytes: Seq<u8>,
    start: int,
    end: int,
    error: Error,
) -> bool {
    if start == end {
        error == Error::InvalidData("empty CAMF section")
    } else if end - start > MAX_ALLOCATION {
        error == Error::Allocation
    } else {
        exists|mid: Camf|
            #![trigger camf_read(mid, camf, bytes, start, end)]
            camf_read(mid, camf, bytes, start, end) && (mid.body_fails(error) || exists|
                table: Seq<TrueHuffmanElement>,
                nodes: Seq<HuffNode>,
                size: u32,
                decoded: Seq<u8>,
            | #[trigger]
                mid.body_is(table, nodes, size, decoded) && camf_error(decoded) == Some(error))
    }
}

/// Whether `done` is the metadata section loaded from its body.
pub open spec fn camf_loaded(done: Camf, camf: Camf, bytes: Seq<u8>, start: int, end: int) -> bool {
    &&& camf_read(done, camf, bytes, start, end)
    &&& done.body_is(done.table@, done.tree.nodes@, done.decoding_size, done.decoded_data@)
    &&& camf_error(done.decoded_data@) is None
    &&& camf_is(done.entries@, done.decoded_data@)
}

/// The size of a section's header.
pub open spec fn section_header_size(de: DirectoryEntry) -> u32 {
    match de.data {
        Subsection::PropertyList(_) => X3F_PROPERTY_LIST_HEADER_SIZE,
        Subsection::Image(_) => X3F_IMAGE_HEADER_SIZE,
        Subsection::Camf(_) => X3F_CAMF_HEADER_SIZE,
        Subsection::Other => 0,
    }
}

/// Whether loading a section of the container `bytes` fails with `error`.
pub open spec fn section_fails(de: DirectoryEntry, bytes: Seq<u8>, error: Error) -> bool {
    let header_size = section_header_size(de);
    let start = de.input.offset + header_size;
    let end = de.input.offset + de.input.size;
    let input = section_input_error(bytes.len() as int, de, header_size);
    match de.data {
        Subsection::Other => error == Error::InvalidData("unsupported section type"),
        Subsection::PropertyList(pl) => if input is Some {
            input == Some(error)
        } else {
            !is_loaded(de) && pl.body_error(bytes, start, end) == Some(error)
        },
        Subsection::Image(id) => if input is Some {
            input == Some(error)
        } else {
            !is_loaded(de) && image_fails(id, bytes, start, end, error)
        },
        Subsection::Camf(camf) => if input is Some {
            input == Some(error)
        } else {
            !is_loaded(de) && camf_fails(camf, bytes, start, end, error)
        },
    }
}

/// Whether `done` is the section `de` loaded from the container `bytes`.
pub open spec fn section_loaded(
    done: DirectoryEntry,
    de: DirectoryEntry,
    bytes: Seq<u8>,
    legacy: LegacyOffset,
) -> bool {
    let header_size = section_header_size(de);
    let start = de.input.offset + header_size;
    let end = de.input.offset + de.input.size;
    &&& same_section(done, de)
    &&& section_input_error(bytes.len() as int, de, header_size) is None
    &&& match (done.data, de.data) {
        (Subsection::PropertyList(p), Subsection::PropertyList(pl)) => {
            &&& pl.body_error(bytes, start, end) is None
            &&& p.body_is(bytes, start, end)
        },
        (Subsection::Image(p), Subsection::Image(id)) => image_loaded(
            p,
            id,
            bytes,
            start,
            end,
            legacy,
        ),
        (Subsection::Camf(p), Subsection::Camf(camf)) => camf_loaded(p, camf, bytes, start, end),
        _ => false,
    }
}

/// Loads a metadata section. After an error it may hold part of its body.
fn load_camf(camf: &mut Camf, input: &mut Input<'_>, control: Control<'_>) -> (r: Result<
    (),
    Error,
>)
    requires
        old(input).inv(),
        old(input).guard() == control,
    ensures
        same_camf_header(*final(camf), *old(camf)),
        r is Ok ==> forall|i: int|
            0 <= i < final(camf).entries@.len() ==> (#[trigger] final(camf).entries@[i]).inv(),
        r is Err ==> final(camf).entries == old(camf).entries,
        ({
            let bytes = old(input).bytes();
            let start = old(input).pos();
            let end = old(input).bound();
            match r {
                Ok(_) => {
                    &&& camf_loaded(*final(camf), *old(camf), bytes, start, end)
                    &&& control.may_read(false)
                },
                Err(Error::Cancelled) => control.may_read(true),
                Err(e) => camf_fails(*old(camf), bytes, start, end, e),
            }
        }),
{
    let ghost bytes = input.bytes();
    let ghost start = input.pos();
    let ghost end = input.bound();
    let ghost before = *camf;
    proof {
        input.lemma_inv();
    }
    let rest: usize = input.remaining();
    if rest == 0 {
        return Err(Error::InvalidData("empty CAMF section"));
    }
    camf.data = input.read_alloc(rest)?;
    let ghost mid = *camf;
    assert(camf_read(mid, before, bytes, start, end));
    let body: CamfBody = decode_camf(camf, control)?;
    let ghost nodes = body.tree.nodes@;
    assert(body.decoded_data@ =~= mid.decoded_body(nodes));
    assert(mid.body_is(body.table@, nodes, body.decoding_size, body.decoded_data@));
    assert(body.decoded_data@.len() <= MAX_ALLOCATION);
    let entries: Vec<CamfEntry> = setup_camf(body.decoded_data.as_slice(), control)?;
    camf.table = body.table;
    camf.tree = body.tree;
    camf.decoding_size = body.decoding_size;
    camf.decoded_data = body.decoded_data;
    camf.entries = entries;
    proof {
        lemma_entries_inv(camf.entries@, camf.decoded_data@);
    }
    Ok(())
}

/// Loads a section, or keeps it where it is loaded. After an error it may hold
/// part of its body.
fn load_entry(
    file: &[u8],
    de: &mut DirectoryEntry,
    legacy: LegacyOffset,
    control: Control<'_>,
) -> (r: Result<(), Error>)
    requires
        old(de).inv(),
    ensures
        final(de).inv(),
        same_section(*final(de), *old(de)),
        r is Ok ==> control.may_read(false),
        match r {
            Ok(_) => if is_loaded(*old(de)) {
                *final(de) == *old(de)
            } else {
                section_loaded(*final(de), *old(de), file@, legacy)
            },
            Err(Error::Cancelled) => control.may_read(true),
            Err(e) => section_fails(*old(de), file@, e),
        },
{
    if de.identifier == X3F_SECP {
        let mut input: Input<'_> = section_input(
            file,
            de,
            X3F_PROPERTY_LIST_HEADER_SIZE,
            control,
        )?;
        match &mut de.data {
            Subsection::PropertyList(pl) => {
                if pl.data.len() > 0 {
                    return Ok(());
                }
                load_properties(pl, &mut input, control)
            },
            _ => Err(Error::InvalidData("unsupported section type")),
        }
    } else if de.identifier == X3F_SECI {
        let mut input: Input<'_> = section_input(file, de, X3F_IMAGE_HEADER_SIZE, control)?;
        let loaded: bool = match &de.data {
            Subsection::Image(id) => id.data.len() > 0 && (id.tru.is_some() || id.huffman.is_some()
                || id.type_format == X3F_IMAGE_THUMB_JPEG || id.type_format
                == X3F_IMAGE_THUMB_PLAIN),
            _ => false,
        };
        if loaded {
            return Ok(());
        }
        // A block that was read before holds coded bytes but no pixels.
        let ghost before = *de;
        cleanup_entry(de);
        let ghost clean = *de;
        let ghost (start, end) = (input.pos(), input.bound());
        match &mut de.data {
            Subsection::Image(id) => {
                let result: Result<(), Error> = load_image(id, &mut input, legacy, control);
                proof {
                    lemma_header_decides(
                        clean.data->Image_0,
                        before.data->Image_0,
                        *id,
                        file@,
                        start,
                        end,
                        legacy,
                        result->Err_0,
                    );
                }
                result
            },
            _ => Err(Error::InvalidData("unsupported section type")),
        }
    } else if de.identifier == X3F_SECC {
        let mut input: Input<'_> = section_input(file, de, X3F_CAMF_HEADER_SIZE, control)?;
        match &mut de.data {
            Subsection::Camf(camf) => {
                if camf.data.len() > 0 {
                    return Ok(());
                }
                load_camf(camf, &mut input, control)
            },
            _ => Err(Error::InvalidData("unsupported section type")),
        }
    } else {
        Err(Error::InvalidData("unsupported section type"))
    }
}

/// The same container, but for what is loaded of section `index`.
pub open spec fn same_but_section(a: X3f, b: X3f, index: int) -> bool {
    &&& a.input == b.input
    &&& a.header == b.header
    &&& a.directory_identifier == b.directory_identifier
    &&& a.directory_version == b.directory_version
    &&& a.directory@.len() == b.directory@.len()
    &&& forall|i: int|
        0 <= i < a.directory@.len() && i != index ==> #[trigger] a.directory@[i] == b.directory@[i]
}

/// Loads section `index` of a container. A section that is loaded stays as it
/// is, and a failed load leaves nothing behind.
pub fn load_data(x3f: &mut X3f<'_>, index: usize, legacy: LegacyOffset, control: Control<'_>) -> (r:
    Result<(), Error>)
    requires
        old(x3f).inv(),
    ensures
        final(x3f).inv(),
        same_but_section(*final(x3f), *old(x3f), index as int),
        control.allows(r),
        index < old(x3f).directory@.len() ==> {
            let before = old(x3f).directory@[index as int];
            let after = final(x3f).directory@[index as int];
            match r {
                Ok(_) => if is_loaded(before) {
                    after == before
                } else {
                    section_loaded(after, before, old(x3f).input@, legacy)
                },
                Err(Error::Cancelled) => after == before || same_section(after, before)
                    && is_unloaded(after),
                Err(e) => {
                    &&& same_section(after, before)
                    &&& is_unloaded(after)
                    &&& section_fails(before, old(x3f).input@, e)
                },
            }
        },
        index >= old(x3f).directory@.len() && !is_cancelled(r) ==> r == Err::<(), Error>(
            Error::InvalidData("missing section"),
        ),
{
    control.check()?;
    if index >= x3f.directory.len() {
        return Err(Error::InvalidData("missing section"));
    }
    let file: &[u8] = x3f.input;
    let de: &mut DirectoryEntry = &mut x3f.directory[index];
    let result: Result<(), Error> = load_entry(file, de, legacy, control);
    if result.is_err() {
        cleanup_entry(de);
    }
    result
}

/// What keeps the coded bytes of an image section from being read.
pub open spec fn block_error(de: DirectoryEntry, bytes: Seq<u8>) -> Option<Error> {
    let input = section_input_error(bytes.len() as int, de, X3F_IMAGE_HEADER_SIZE);
    if input is Some {
        input
    } else if de.identifier != X3F_SECI {
        Some(Error::InvalidData("not an image section"))
    } else if de.data->Image_0.data@.len() == 0 && de.input.size - X3F_IMAGE_HEADER_SIZE
        > MAX_ALLOCATION {
        Some(Error::Allocation)
    } else {
        None
    }
}

/// Whether `after` is the image section with its coded bytes read.
pub open spec fn block_read(
    after: DirectoryEntry,
    before: DirectoryEntry,
    bytes: Seq<u8>,
) -> bool {
    let (a, b) = (after.data->Image_0, before.data->Image_0);
    &&& same_section(after, before)
    &&& a.huffman == b.huffman
    &&& a.tru == b.tru
    &&& a.quattro == b.quattro
    &&& a.data@ == bytes.subrange(
        before.input.offset + X3F_IMAGE_HEADER_SIZE,
        before.input.offset + before.input.size,
    )
}

/// Reads the coded bytes of image section `index`, without decoding them.
pub fn load_image_block(x3f: &mut X3f<'_>, index: usize, control: Control<'_>) -> (r: Result<
    (),
    Error,
>)
    requires
        old(x3f).inv(),
    ensures
        final(x3f).inv(),
        same_but_section(*final(x3f), *old(x3f), index as int),
        index < old(x3f).directory@.len() ==> {
            let before = old(x3f).directory@[index as int];
            let after = final(x3f).directory@[index as int];
            match r {
                Ok(_) => {
                    &&& block_error(before, old(x3f).input@) is None
                    &&& if before.data->Image_0.data@.len() > 0 {
                        after == before
                    } else {
                        block_read(after, before, old(x3f).input@)
                    }
                    &&& control.may_read(false)
                },
                Err(Error::Cancelled) => after == before && control.may_read(true),
                Err(e) => {
                    &&& after == before
                    &&& block_error(before, old(x3f).input@) == Some(e)
                },
            }
        },
        index >= old(x3f).directory@.len() ==> r == Err::<(), Error>(
            Error::InvalidData("missing section"),
        ),
{
    if index >= x3f.directory.len() {
        return Err(Error::InvalidData("missing section"));
    }
    let file: &[u8] = x3f.input;
    let mut input: Input<'_> = section_input(
        file,
        &x3f.directory[index],
        X3F_IMAGE_HEADER_SIZE,
        control,
    )?;
    if x3f.directory[index].identifier != X3F_SECI {
        return Err(Error::InvalidData("not an image section"));
    }
    proof {
        input.lemma_inv();
    }
    let loaded: bool = match &x3f.directory[index].data {
        Subsection::Image(id) => id.data.len() > 0,
        _ => true,
    };
    if loaded {
        return Ok(());
    }
    let rest: usize = input.remaining();
    let data: Vec<u8> = input.read_alloc(rest)?;
    let de: &mut DirectoryEntry = &mut x3f.directory[index];
    if let Subsection::Image(id) = &mut de.data {
        id.data = data;
    }
    Ok(())
}

/// How a section loads depends on the container alone: a section that is not
/// loaded, whether a load of it failed before or its coded bytes were read, loads
/// like any other with the same header.
pub proof fn law_loading_depends_on_the_container_alone(
    a: DirectoryEntry,
    b: DirectoryEntry,
    done: DirectoryEntry,
    bytes: Seq<u8>,
    legacy: LegacyOffset,
    error: Error,
)
    requires
        same_section(a, b),
        !is_loaded(a),
        !is_loaded(b),
    ensures
        section_fails(a, bytes, error) ==> section_fails(b, bytes, error),
        section_loaded(done, a, bytes, legacy) ==> section_loaded(done, b, bytes, legacy),
{
    let header_size = section_header_size(a);
    let start = a.input.offset + header_size;
    let end = a.input.offset + a.input.size;
    match (a.data, b.data) {
        (Subsection::Image(p), Subsection::Image(q)) => {
            lemma_header_decides(
                p,
                q,
                done.data->Image_0,
                bytes,
                start,
                end,
                legacy,
                error,
            );
        },
        (Subsection::Camf(p), Subsection::Camf(q)) => {
            if camf_fails(p, bytes, start, end, error) && start != end && end - start
                <= MAX_ALLOCATION {
                let mid = choose|mid: Camf|
                    #![trigger camf_read(mid, p, bytes, start, end)]
                    camf_read(mid, p, bytes, start, end) && (mid.body_fails(error) || exists|
                        table: Seq<TrueHuffmanElement>,
                        nodes: Seq<HuffNode>,
                        size: u32,
                        decoded: Seq<u8>,
                    | #[trigger]
                        mid.body_is(table, nodes, size, decoded) && camf_error(decoded) == Some(
                            error,
                        ));
                assert(camf_read(mid, q, bytes, start, end));
            }
        },
        _ => {},
    }
}

/// Parses a container, if it can be parsed.
pub fn x3f_new_from_file<'a>(infile: Option<&'a [u8]>) -> (r: Option<X3f<'a>>)
    ensures
        match r {
            Some(x3f) => {
                &&& infile is Some
                &&& container_error(infile->0@) is None
                &&& container_is(x3f, infile->0@)
                &&& x3f.inv()
            },
            None => infile is None || container_error(infile->0@) is Some,
        },
{
    match new_from_file(infile, Control::none()) {
        Ok(x3f) => Some(x3f),
        Err(_) => None,
    }
}

/// Drops a container and all that is loaded of it.
pub fn x3f_delete(x3f: Option<X3f<'_>>) -> (r: u32)
    ensures
        r == (if x3f is None {
            X3F_ARGUMENT_ERROR
        } else {
            X3F_OK
        }),
{
    match x3f {
        None => X3F_ARGUMENT_ERROR,
        Some(_) => X3F_OK,
    }
}

/// Loads a section and reports a status. The container and the section's place
/// in its directory may be missing.
pub fn x3f_load_data(x3f: Option<&mut X3f<'_>>, de: Option<usize>, legacy: LegacyOffset) -> (r: u32)
    requires
        x3f is Some ==> x3f->0.inv(),
    ensures
        x3f is None || de is None || de->0 >= x3f->0.directory@.len() ==> r == X3F_ARGUMENT_ERROR,
        x3f is Some && de is Some && de->0 < x3f->0.directory@.len() ==> {
            let before = x3f->0.directory@[de->0 as int];
            let after = final(x3f->0).directory@[de->0 as int];
            &&& final(x3f->0).inv()
            &&& same_but_section(*final(x3f->0), *x3f->0, de->0 as int)
            &&& if before.data is Other {
                r == X3F_INTERNAL_ERROR && after == before
            } else if r == X3F_OK {
                if is_loaded(before) {
                    after == before
                } else {
                    section_loaded(after, before, x3f->0.input@, legacy)
                }
            } else {
                &&& r == X3F_INFILE_ERROR
                &&& same_section(after, before)
                &&& is_unloaded(after)
                &&& exists|e: Error| #[trigger] section_fails(before, x3f->0.input@, e)
            }
        },
{
    match (x3f, de) {
        (Some(x3f), Some(index)) => {
            if index >= x3f.directory.len() {
                return X3F_ARGUMENT_ERROR;
            }
            let identifier: u32 = x3f.directory[index].identifier;
            if identifier != X3F_SECP && identifier != X3F_SECI && identifier != X3F_SECC {
                return X3F_INTERNAL_ERROR;
            }
            let ghost before = x3f.directory@[index as int];
            match load_data(x3f, index, legacy, Control::none()) {
                Ok(_) => X3F_OK,
                Err(e) => {
                    assert(section_fails(before, x3f.input@, e));
                    X3F_INFILE_ERROR
                },
            }
        },
        _ => X3F_ARGUMENT_ERROR,
    }
}

/// Reads the coded bytes of an image section and reports a status.
pub fn x3f_load_image_block(x3f: Option<&mut X3f<'_>>, de: Option<usize>) -> (r: u32)
    requires
        x3f is Some ==> x3f->0.inv(),
    ensures
        x3f is None || de is None || de->0 >= x3f->0.directory@.len() ==> r == X3F_ARGUMENT_ERROR,
        x3f is Some && de is Some && de->0 < x3f->0.directory@.len() ==> {
            let before = x3f->0.directory@[de->0 as int];
            let after = final(x3f->0).directory@[de->0 as int];
            &&& final(x3f->0).inv()
            &&& same_but_section(*final(x3f->0), *x3f->0, de->0 as int)
            &&& if before.identifier != X3F_SECI {
                r == X3F_INTERNAL_ERROR && after == before
            } else if block_error(before, x3f->0.input@) is Some {
                r == X3F_INFILE_ERROR && after == before
            } else {
                &&& r == X3F_OK
                &&& if before.data->Image_0.data@.len() > 0 {
                    after == before
                } else {
                    block_read(after, before, x3f->0.input@)
                }
            }
        },
{
    match (x3f, de) {
        (Some(x3f), Some(index)) => {
            if index >= x3f.directory.len() {
                return X3F_ARGUMENT_ERROR;
            }
            if x3f.directory[index].identifier != X3F_SECI {
                return X3F_INTERNAL_ERROR;
            }
            match load_image_block(x3f, index, Control::none()) {
                Ok(_) => X3F_OK,
                Err(_) => X3F_INFILE_ERROR,
            }
        },
        _ => X3F_ARGUMENT_ERROR,
    }
}

/// The text of a status.
pub open spec fn status_text(err: u32) -> Seq<char> {
    if err == X3F_OK {
        "ok"@
    } else if err == X3F_ARGUMENT_ERROR {
        "argument error"@
    } else if err == X3F_INFILE_ERROR {
        "infile error"@
    } else if err == X3F_OUTFILE_ERROR {
        "outfile error"@
    } else if err == X3F_INTERNAL_ERROR {
        "internal error"@
    } else {
        "undefined error"@
    }
}

/// The text of a status.
pub fn x3f_err(err: u32) -> (r: &'static str)
    ensures
        r@ == status_text(err),
{
    match err {
        X3F_OK => "ok",
        X3F_ARGUMENT_ERROR => "argument error",
        X3F_INFILE_ERROR => "infile error",
        X3F_OUTFILE_ERROR => "outfile error",
        X3F_INTERNAL_ERROR => "internal error",
        _ => "undefined error",
    }
}

/// The body of a section is what follows its header, up to its end: 28 bytes of it for
/// images and metadata, and 24 for properties.
pub proof fn law_bodies_follow_their_headers(
    done: DirectoryEntry,
    de: DirectoryEntry,
    bytes: Seq<u8>,
    legacy: LegacyOffset,
)
    requires
        section_loaded(done, de, bytes, legacy),
    ensures
        ({
            let end = de.input.offset + de.input.size;
            &&& end <= bytes.len()
            &&& match done.data {
                Subsection::PropertyList(list) => 24 <= de.input.size && list.body_is(
                    bytes,
                    de.input.offset + 24,
                    end,
                ),
                Subsection::Image(id) => 28 <= de.input.size && image_loaded(
                    id,
                    de.data->Image_0,
                    bytes,
                    de.input.offset + 28,
                    end,
                    legacy,
                ),
                Subsection::Camf(camf) => 28 <= de.input.size && camf.data@ == bytes.subrange(
                    de.input.offset + 28,
                    end,
                ) && camf_is(camf.entries@, camf.decoded_data@),
                Subsection::Other => false,
            }
        }),
{
}

} // verus!
