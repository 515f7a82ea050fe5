//! Parsing containers, loading their sections, and cancelling.

use std::sync::atomic::AtomicBool;
use x3f_sys::camf::{Camf, CamfValue, MatrixData};
use x3f_sys::camf_entries::{setup_camf, X3F_CMBM, X3F_CMBP, X3F_CMBT};
use x3f_sys::control::{Control, Error};
use x3f_sys::huffman::LegacyOffset;
use x3f_sys::io::{
    new_from_file, x3f_get_camf, x3f_get_de, x3f_get_prop, x3f_get_raw,
    x3f_get_thumb_huffman, x3f_get_thumb_jpeg, x3f_get_thumb_plain, DirectoryEntry, Extent, Header, Subsection, X3f, X3F_SECC, X3F_SECI,
    X3F_SECP, X3F_VERSION_4_0,
};
use x3f_sys::parse::{cstr_of, Input, MAX_ALLOCATION};
use x3f_sys::sections::{
    load_data, load_image_block, x3f_delete, x3f_err, x3f_load_data, x3f_load_image_block,
    x3f_new_from_file, X3F_ARGUMENT_ERROR, X3F_INFILE_ERROR, X3F_INTERNAL_ERROR, X3F_OK,
    X3F_OUTFILE_ERROR,
};
use x3f_sys::tree::build_tree;
use x3f_sys::types::HuffTree;

fn words(values: &[u32]) -> Vec<u8> {
    let mut out = Vec::new();
    for v in values {
        out.extend_from_slice(&v.to_le_bytes());
    }
    out
}

fn container(section: &[u8]) -> Vec<u8> {
    let mut bytes = Vec::new();
    bytes.extend_from_slice(b"FOVb");
    bytes.extend_from_slice(&X3F_VERSION_4_0.to_le_bytes());
    bytes.extend_from_slice(&[0; 16]);
    bytes.extend_from_slice(section);
    let directory = bytes.len() as u32;
    bytes.extend_from_slice(b"SECd");
    bytes.extend_from_slice(&0x20000u32.to_le_bytes());
    bytes.extend_from_slice(&1u32.to_le_bytes());
    bytes.extend_from_slice(&24u32.to_le_bytes());
    bytes.extend_from_slice(&(section.len() as u32).to_le_bytes());
    bytes.extend_from_slice(b"PROP");
    bytes.extend_from_slice(&directory.to_le_bytes());
    bytes
}

fn load(x3f: &mut X3f<'_>, index: usize) -> Result<(), Error> {
    load_data(x3f, index, LegacyOffset::default(), Control::none())
}

#[test]
fn malformed_containers_return_errors_and_can_be_retried() {
    let property = words(&[X3F_SECP, 0x20000, 1, 0, 0, 0, u32::MAX, 0, 0]);
    let good_header = container(&property);
    for bytes in [&b"FOVb"[..], &good_header[..20], &good_header[..good_header.len() - 2]] {
        assert!(new_from_file(Some(bytes), Control::none()).is_err());
        assert!(x3f_new_from_file(Some(bytes)).is_none());
    }
    let mut reader = new_from_file(Some(&good_header), Control::none()).unwrap();
    let section = x3f_get_prop(&reader).unwrap();
    for _ in 0..3 {
        assert!(load(&mut reader, section).is_err());
        match &reader.directory[section].data {
            Subsection::PropertyList(pl) => {
                assert!(pl.data.is_empty());
                assert!(pl.properties.is_empty());
            }
            _ => unreachable!(),
        }
    }
    let token = AtomicBool::new(true);
    assert!(matches!(
        load_data(&mut reader, section, LegacyOffset::default(), Control::new(&token)),
        Err(Error::Cancelled)
    ));
    assert_eq!(x3f_delete(Some(reader)), X3F_OK);
    assert!(matches!(
        new_from_file(Some(&good_header), Control::new(&token)),
        Err(Error::Cancelled)
    ));
}

#[test]
fn directory_count_and_section_ranges_are_bounded() {
    let section = words(&[X3F_SECP, 0x20000, 0, 0, 0, 0]);
    let bytes = container(&section);
    let directory = 24 + section.len();
    for (offset, value) in
        [(directory + 8, u32::MAX), (directory + 12, 0), (directory + 16, u32::MAX)]
    {
        let mut corrupt = bytes.clone();
        corrupt[offset..offset + 4].copy_from_slice(&value.to_le_bytes());
        assert!(new_from_file(Some(&corrupt), Control::none()).is_err());
    }
    let mut reader = new_from_file(Some(&bytes), Control::none()).unwrap();
    let section = x3f_get_prop(&reader).unwrap();
    load(&mut reader, section).unwrap();
    x3f_delete(Some(reader));
}

fn true_section() -> Vec<u8> {
    let mut section = words(&[X3F_SECI, 0x20000, 1, 30, 2, 2, 0]);
    for word in [123u16, 123, 123, 0] {
        section.extend_from_slice(&word.to_le_bytes());
    }
    section.extend_from_slice(&[1, 0, 1, 128, 0, 0]);
    section.extend_from_slice(&words(&[1, 1, 1]));
    section.extend_from_slice(&[0; 33]);
    section
}

#[test]
fn raw_block_can_be_decoded_and_malformed_true_data_is_recoverable() {
    let section = true_section();
    let bytes = container(&section);
    let mut reader = new_from_file(Some(&bytes), Control::none()).unwrap();
    let raw = x3f_get_raw(&reader).unwrap();
    load_image_block(&mut reader, raw, Control::none()).unwrap();
    load(&mut reader, raw).unwrap();
    match &reader.directory[raw].data {
        Subsection::Image(id) => {
            let tru = id.tru.as_ref().unwrap();
            assert_eq!(tru.x3rgb16.data.len(), 12);
            assert!(tru.x3rgb16.data.iter().all(|&v| v == 123));
        }
        _ => unreachable!(),
    }
    for offset in [36, 42] {
        let mut malformed = section.clone();
        malformed[offset] = 255;
        let bytes = container(&malformed);
        let mut reader = new_from_file(Some(&bytes), Control::none()).unwrap();
        let raw = x3f_get_raw(&reader).unwrap();
        assert!(load(&mut reader, raw).is_err());
        match &reader.directory[raw].data {
            Subsection::Image(id) => assert!(id.data.is_empty() && id.tru.is_none()),
            _ => unreachable!(),
        }
    }
}

fn header() -> Header {
    Header {
        identifier: 0,
        version: 0,
        unique_identifier: vec![0; 16],
        mark_bits: 0,
        columns: 0,
        rows: 0,
        rotation: 0,
        white_balance: Vec::new(),
        color_mode: Vec::new(),
        extended_types: Vec::new(),
        extended_data: Vec::new(),
    }
}

#[test]
fn c_wrappers_preserve_legacy_argument_and_section_statuses() {
    let section = DirectoryEntry {
        input: Extent { offset: 0, size: 0 },
        output: Extent { offset: 0, size: 0 },
        type_: 0,
        identifier: 0,
        version: 0,
        data: Subsection::Other,
    };
    let mut reader = X3f {
        input: &[],
        header: header(),
        directory_identifier: 0,
        directory_version: 0,
        directory: vec![section],
    };
    let legacy = LegacyOffset::default();
    assert_eq!(x3f_load_data(None, Some(0), legacy), X3F_ARGUMENT_ERROR);
    assert_eq!(x3f_load_image_block(None, Some(0)), X3F_ARGUMENT_ERROR);
    assert_eq!(x3f_load_data(Some(&mut reader), None, legacy), X3F_ARGUMENT_ERROR);
    assert_eq!(x3f_load_image_block(Some(&mut reader), None), X3F_ARGUMENT_ERROR);
    assert_eq!(x3f_load_data(Some(&mut reader), Some(0), legacy), X3F_INTERNAL_ERROR);
    assert_eq!(x3f_load_image_block(Some(&mut reader), Some(0)), X3F_INTERNAL_ERROR);
    let bytes = container(&words(&[X3F_SECP, 0x20000, 0, 0, 0, 0]));
    let mut reader = x3f_new_from_file(Some(&bytes)).unwrap();
    assert_eq!(x3f_load_image_block(Some(&mut reader), Some(0)), X3F_INTERNAL_ERROR);
    assert_eq!(x3f_delete(None), X3F_ARGUMENT_ERROR);
}

#[test]
fn statuses_have_texts() {
    assert_eq!(x3f_err(X3F_OK), "ok");
    assert_eq!(x3f_err(X3F_ARGUMENT_ERROR), "argument error");
    assert_eq!(x3f_err(X3F_INFILE_ERROR), "infile error");
    assert_eq!(x3f_err(X3F_OUTFILE_ERROR), "outfile error");
    assert_eq!(x3f_err(X3F_INTERNAL_ERROR), "internal error");
    assert_eq!(x3f_err(17), "undefined error");
}

#[test]
fn errors_have_messages() {
    assert_eq!(Error::Cancelled.message(), "conversion cancelled");
    assert_eq!(Error::InvalidData("bad code").message(), "invalid X3F data: bad code");
    assert_eq!(
        Error::Allocation.message(),
        "X3F allocation exceeds available memory or safety limit"
    );
    let text = Error::from(std::io::Error::new(std::io::ErrorKind::Other, "disk gone")).message();
    assert_eq!(text, "disk gone");
}

#[test]
fn tokens_stop_a_conversion() {
    let token = AtomicBool::new(false);
    assert!(Control::new(&token).check().is_ok());
    token.store(true, std::sync::atomic::Ordering::Relaxed);
    assert!(matches!(Control::new(&token).check(), Err(Error::Cancelled)));
    assert!(Control::none().check().is_ok());
    assert!(Control::outcome(false).is_ok());
    assert!(Control::outcome(true).is_err());
    assert!(Control::default().check().is_ok());
}

#[test]
fn set_tokens_are_answered_first() {
    let token = AtomicBool::new(true);
    let control = Control::new(&token);
    assert!(matches!(new_from_file(None, control), Err(Error::Cancelled)));
    assert!(matches!(new_from_file(Some(&[1, 2, 3]), control), Err(Error::Cancelled)));
    let bytes = container(&true_section());
    let mut reader = new_from_file(Some(&bytes), Control::none()).unwrap();
    let stopped = load_data(&mut reader, 7, LegacyOffset::default(), control);
    assert!(matches!(stopped, Err(Error::Cancelled)));
    let stopped = load_image_block(&mut reader, 0, control);
    assert!(matches!(stopped, Err(Error::Cancelled)));
    assert!(matches!(setup_camf(&text_entry(), control), Err(Error::Cancelled)));
    assert!(matches!(Input::new(Some(&bytes), control), Err(Error::Cancelled)));
    token.store(false, std::sync::atomic::Ordering::Relaxed);
    let mut input = Input::new(Some(&bytes), control).unwrap();
    token.store(true, std::sync::atomic::Ordering::Relaxed);
    assert!(matches!(input.seek(4), Err(Error::Cancelled)));
    assert!(matches!(input.u32(), Err(Error::Cancelled)));
    assert_eq!(input.position(), 0);
}

fn invalid(r: Result<X3f<'_>, Error>) -> &'static str {
    match r {
        Err(Error::InvalidData(message)) => message,
        _ => panic!("no format error"),
    }
}

#[test]
fn containers_are_told_apart_by_their_faults() {
    let bytes = container(&words(&[X3F_SECP, 0x20000, 0, 0, 0, 0]));
    let open = |b: &[u8]| invalid(new_from_file(Some(b), Control::none())).len() > 0;
    let mut other = bytes.clone();
    other[0] = b'X';
    assert!(open(&other));
    let mut other = bytes.clone();
    let n = other.len();
    other[n - 4..].copy_from_slice(&0u32.to_le_bytes());
    assert!(open(&other));
    assert!(open(&bytes[..12]));
    assert!(matches!(new_from_file(None, Control::none()), Err(Error::InvalidData(_))));
}

#[test]
fn sections_are_found_by_kind() {
    let bytes = container(&words(&[X3F_SECP, 0x20000, 0, 0, 0, 0]));
    let reader = new_from_file(Some(&bytes), Control::none()).unwrap();
    assert_eq!(x3f_get_prop(&reader), Some(0));
    assert_eq!(x3f_get_camf(&reader), None);
    assert_eq!(x3f_get_raw(&reader), None);
    assert_eq!(x3f_get_thumb_plain(&reader), None);
    assert_eq!(x3f_get_de(&reader, X3F_SECP, 0), Some(0));
    let image = container(&true_section());
    let reader = new_from_file(Some(&image), Control::none()).unwrap();
    assert_eq!(x3f_get_raw(&reader), Some(0));
    assert_eq!(x3f_get_thumb_jpeg(&reader), None);
    assert_eq!(x3f_get_thumb_huffman(&reader), None);
    let mut thumb = true_section();
    thumb[8..16].copy_from_slice(&words(&[2, 11]));
    let thumb = container(&thumb);
    let reader = new_from_file(Some(&thumb), Control::none()).unwrap();
    assert_eq!(x3f_get_thumb_huffman(&reader), Some(0));
    assert_eq!(x3f_get_raw(&reader), None);
    let reader = new_from_file(Some(&image), Control::none()).unwrap();
    assert_eq!(reader.directory[0].input, Extent { offset: 24, size: image.len() as u32 - 52 });
}

#[test]
fn loading_twice_changes_nothing() {
    let bytes = container(&true_section());
    let mut reader = new_from_file(Some(&bytes), Control::none()).unwrap();
    load(&mut reader, 0).unwrap();
    if let Subsection::Image(id) = &mut reader.directory[0].data {
        id.tru.as_mut().unwrap().x3rgb16.data[0] = 9;
    }
    load(&mut reader, 0).unwrap();
    if let Subsection::Image(id) = &reader.directory[0].data {
        assert_eq!(id.tru.as_ref().unwrap().x3rgb16.data[..2], [9, 123]);
    }
    assert!(matches!(load(&mut reader, 7), Err(Error::InvalidData("missing section"))));
}

#[test]
fn properties_are_decoded_to_utf8() {
    let text: Vec<u16> = "ISO\0100\0\u{e9}\0\u{10400}\0".encode_utf16().collect();
    let mut section = words(&[X3F_SECP, 0x20000, 2, 0, 0, text.len() as u32]);
    section.extend_from_slice(&words(&[0, 4, 8, 10]));
    for unit in &text {
        section.extend_from_slice(&unit.to_le_bytes());
    }
    let bytes = container(&section);
    let mut reader = new_from_file(Some(&bytes), Control::none()).unwrap();
    load(&mut reader, 0).unwrap();
    match &reader.directory[0].data {
        Subsection::PropertyList(pl) => {
            assert_eq!(pl.properties[0].name_utf8, b"ISO".to_vec());
            assert_eq!(pl.properties[0].value_utf8, b"100".to_vec());
            assert_eq!(pl.properties[1].name_utf8, "\u{e9}".as_bytes().to_vec());
            assert_eq!(pl.properties[1].value_utf8, "\u{10400}".as_bytes().to_vec());
        }
        _ => unreachable!(),
    }
}

fn parse_camf(bytes: &[u8]) -> Result<(), Error> {
    setup_camf(bytes, Control::none()).map(|_| ())
}

fn text_entry() -> Vec<u8> {
    let mut valid = words(&[X3F_CMBT, 0x10000, 34, 20, 25]);
    valid.extend_from_slice(b"name\0");
    valid.extend_from_slice(&5u32.to_le_bytes());
    valid.extend_from_slice(b"text\0");
    valid
}

#[test]
fn malformed_camf_entries_are_recoverable() {
    let mut valid = text_entry();
    parse_camf(&valid).unwrap();
    for (offset, value) in
        [(8, 0), (8, u32::MAX), (12, 35), (16, 10), (25, u32::MAX), (0, X3F_CMBM)]
    {
        let mut corrupt = valid.clone();
        corrupt[offset..offset + 4].copy_from_slice(&value.to_le_bytes());
        assert!(parse_camf(&corrupt).is_err());
    }
    for length in 1..valid.len() {
        assert!(parse_camf(&valid[..length]).is_err());
    }
    valid[24] = b'x';
    assert!(parse_camf(&valid).is_err());
}

#[test]
fn entries_hold_texts_properties_and_matrices() {
    let mut data = text_entry();
    let mut list = words(&[X3F_CMBP, 0x10000, 48, 20, 24]);
    list.extend_from_slice(b"set\0");
    list.extend_from_slice(&words(&[1, 40, 0, 4]));
    list.extend_from_slice(b"key\0val\0");
    assert_eq!(list.len(), 48);
    data.extend_from_slice(&list);
    let mut matrix = words(&[X3F_CMBM, 0x10000, 58, 20, 24]);
    matrix.extend_from_slice(b"mat\0");
    matrix.extend_from_slice(&words(&[0, 1, 54, 3, 48, 0]));
    matrix.extend_from_slice(b"xaxis\0");
    for v in [7u16, 0xffff] {
        matrix.extend_from_slice(&v.to_le_bytes());
    }
    let size = matrix.len() as u32 + 2;
    matrix.extend_from_slice(&9u16.to_le_bytes());
    matrix[8..12].copy_from_slice(&size.to_le_bytes());
    data.extend_from_slice(&matrix);
    let entries = setup_camf(&data, Control::none()).unwrap();
    assert_eq!(entries.len(), 3);
    let sizes: Vec<u32> = entries.iter().map(|e| e.entry_size).collect();
    assert_eq!(sizes, vec![34, 48, size]);
    assert_eq!(sizes.iter().sum::<u32>(), data.len() as u32);
    match &entries[0].value {
        CamfValue::Text { text_size, text } => {
            assert_eq!((*text_size, text.as_slice()), (5, &b"text"[..]));
        }
        _ => unreachable!(),
    }
    match &entries[1].value {
        CamfValue::Property { names, values } => {
            assert_eq!(names[0], b"key".to_vec());
            assert_eq!(values[0], b"val".to_vec());
        }
        _ => unreachable!(),
    }
    match &entries[2].value {
        CamfValue::Matrix(m) => {
            assert_eq!((m.dims.len(), m.dims[0].size, m.elements), (1, 3, 3));
            match &m.decoded {
                MatrixData::Int(v) => assert_eq!(v, &vec![7, -1, 9]),
                MatrixData::Uint(_) | MatrixData::Float(_) => unreachable!(),
            }
        }
        _ => unreachable!(),
    }
}

#[test]
fn metadata_sections_are_loaded_from_a_container() {
    let mut section = words(&[X3F_SECC, 0x40000, 3, 0, 0, 0, 0]);
    section.extend_from_slice(&text_entry());
    let bytes = container(&section);
    let mut reader = new_from_file(Some(&bytes), Control::none()).unwrap();
    let camf = x3f_get_camf(&reader).unwrap();
    assert!(matches!(
        load(&mut reader, camf),
        Err(Error::InvalidData("unsupported CAMF encoding"))
    ));
    match &reader.directory[camf].data {
        Subsection::Camf(c) => assert!(c.data.is_empty() && c.entries.is_empty()),
        _ => unreachable!(),
    }
}

#[test]
fn encrypted_metadata_can_be_encrypted_again() {
    let camf = |data: Vec<u8>| Camf {
        type_: 2,
        val0: 0,
        val1: 0,
        val2: 0,
        val3: 0x1234_5678,
        data,
        table: Vec::new(),
        tree: HuffTree::empty(),
        decoding_size: 0,
        decoded_data: Vec::new(),
        entries: Vec::new(),
    };
    let plain: Vec<u8> = (0..=255).collect();
    let once = x3f_sys::camf::decode_camf(&camf(plain.clone()), Control::none()).unwrap();
    assert_ne!(once.decoded_data, plain);
    let twice =
        x3f_sys::camf::decode_camf(&camf(once.decoded_data), Control::none()).unwrap();
    assert_eq!(twice.decoded_data, plain);
}

#[test]
fn overlapping_and_oversized_huffman_tables_are_rejected() {
    for codes in [
        vec![(9, 0, 0), (1, 0, 1)],
        vec![(1, 0, 0), (1, 0, 1)],
        vec![(32, 0, 0)],
        vec![],
    ] {
        assert!(build_tree(&codes).is_err());
    }
}

#[test]
fn cursors_stay_within_their_limit() {
    let data: Vec<u8> = vec![1, 2, 3, 4, 5, 6, 7, 8];
    let mut input = Input::new(Some(&data), Control::none()).unwrap();
    assert_eq!(input.u8().unwrap(), 1);
    assert_eq!(input.u16().unwrap(), 0x0302);
    assert_eq!(input.u32().unwrap(), 0x0706_0504);
    assert!(matches!(input.u32(), Err(Error::InvalidData(_))));
    input.seek(2).unwrap();
    input.limit(4).unwrap();
    assert_eq!((input.position(), input.end(), input.remaining()), (2, 4, 2));
    assert!(input.read(3).is_err());
    assert_eq!(input.read(2).unwrap(), vec![3, 4]);
    assert!(input.seek(9).is_err());
    assert!(matches!(input.read_alloc(MAX_ALLOCATION + 1), Err(_)));
    assert!(Input::new(None, Control::none()).is_err());
    assert_eq!(cstr_of(b"ab\0c"), b"ab".to_vec());
    assert_eq!(cstr_of(b"ab"), b"ab".to_vec());
}
