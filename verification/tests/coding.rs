//! Bit readers, code trees and the decoders of image planes.

use std::sync::atomic::AtomicBool;
use x3f_sys::area::{Area16, Area8};
use x3f_sys::control::{Control, Error};
use x3f_sys::entropy::{
    is_quattro_format, read_leaf, true_decode, true_decode_one_color, true_diff, BitReader,
};
use x3f_sys::huffman::{huffman_decode, simple_decode, LegacyOffset};
use x3f_sys::tree::{build_tree, true_tree};
use x3f_sys::types::{HuffNode, HuffTree, Huffman, ImageData, True, TrueHuffmanElement};

#[test]
fn bit_reader_msb_first_within_byte() {
    let bytes: Vec<u8> = vec![0b1010_0110, 0b1100_0011];
    let mut br = BitReader::new(&bytes);
    let mut got = 0u32;
    for _ in 0..16 {
        got = (got << 1) | br.get_bit().unwrap() as u32;
    }
    assert_eq!(got, 0b1010_0110_1100_0011);
    assert!(matches!(br.get_bit(), Err(Error::InvalidData(_))));
}

fn leaf(value: u32) -> HuffNode {
    HuffNode { branch: [None; 2], leaf: value }
}

fn plane(seed: u16, tree: HuffTree, data: Vec<u8>, sizes: [u32; 3]) -> ImageData {
    ImageData {
        type_: 3,
        format: 0x1e,
        type_format: 0x0003_001e,
        columns: 4,
        rows: 4,
        row_stride: 12,
        huffman: None,
        tru: Some(True {
            seed: [seed, 0, 0],
            unknown: 0,
            table: Vec::new(),
            plane_size: sizes.to_vec(),
            plane_offset: [0, 0, 0],
            tree,
            x3rgb16: Area16 {
                data: vec![0; 48],
                rows: 4,
                columns: 4,
                channels: 3,
                row_stride: 12,
            },
        }),
        quattro: None,
        data,
    }
}

#[test]
fn malformed_codes_and_cancelled_decode_return_errors() {
    for value in [32, u32::MAX] {
        let tree = HuffTree { nodes: vec![leaf(value)] };
        assert!(true_diff(&mut BitReader::new(&[0]), &tree).is_err());
    }
    let token = AtomicBool::new(true);
    let mut id = plane(1, HuffTree { nodes: vec![leaf(0)] }, Vec::new(), [0; 3]);
    assert!(matches!(true_decode(&mut id, Control::new(&token)), Err(Error::Cancelled)));
}

#[test]
fn decode_constant_seed_plane() {
    let nodes = vec![HuffNode { branch: [Some(1), Some(1)], leaf: u32::MAX }, leaf(0)];
    let mut id = plane(123, HuffTree { nodes }, vec![0u8; 4], [4; 3]);
    true_decode_one_color(&mut id, 0, Control::none()).unwrap();
    let data = &id.tru.as_ref().unwrap().x3rgb16.data;
    for row in 0..4 {
        for col in 0..4 {
            assert_eq!(data[(row * 4 + col) * 3], 123, "row {row} col {col}");
        }
    }
}

#[test]
fn differences_have_a_sign() {
    let codes: Vec<(u32, u32, u32)> = vec![(1, 0, 0), (2, 2, 2), (2, 3, 1)];
    let tree = build_tree(&codes).unwrap();
    let bits = [0b0101_1100, 0b0110_1110];
    let mut br = BitReader::new(&bits);
    let got: Vec<i32> = (0..6).map(|_| true_diff(&mut br, &tree).unwrap()).collect();
    assert_eq!(got, vec![0, 3, -3, -1, 1, 0]);
    assert!(true_diff(&mut br, &tree).is_err());
}

#[test]
fn samples_add_up_along_rows_and_columns() {
    let codes: Vec<(u32, u32, u32)> = vec![(1, 0, 0), (1, 1, 1)];
    let tree = build_tree(&codes).unwrap();
    let mut id = plane(10, tree, vec![0xff; 4], [4; 3]);
    true_decode_one_color(&mut id, 0, Control::none()).unwrap();
    let data = &id.tru.as_ref().unwrap().x3rgb16.data;
    let row = |r: usize| (0..4).map(|c| data[(r * 4 + c) * 3]).collect::<Vec<u16>>();
    assert_eq!(row(0), vec![11, 11, 12, 12]);
    assert_eq!(row(1), vec![11, 11, 12, 12]);
    assert_eq!(row(2), vec![12, 12, 13, 13]);
    assert!(data.iter().skip(1).step_by(3).all(|&v| v == 0));
}

#[test]
fn codes_are_read_back() {
    let codes: Vec<(u32, u32, u32)> = vec![(2, 0, 7), (2, 1, 8), (3, 4, 9), (3, 5, 10), (2, 3, 11)];
    let tree = build_tree(&codes).unwrap();
    for &(len, code, value) in &codes {
        let byte = [(code << (8 - len)) as u8];
        let mut br = BitReader::new(&byte);
        assert_eq!(read_leaf(&mut br, &tree).unwrap(), value);
        for _ in len..8 {
            br.get_bit().unwrap();
        }
        assert!(br.get_bit().is_err());
    }
}

#[test]
fn true_tables_are_left_aligned() {
    let table = vec![
        TrueHuffmanElement { code_size: 1, code: 0 },
        TrueHuffmanElement { code_size: 2, code: 0x80 },
        TrueHuffmanElement { code_size: 2, code: 0xc0 },
    ];
    let tree = true_tree(&table).unwrap();
    let mut br = BitReader::new(&[0b0_10_11_000]);
    let got: Vec<u32> = (0..3).map(|_| read_leaf(&mut br, &tree).unwrap()).collect();
    assert_eq!(got, vec![0, 1, 2]);
    assert!(true_tree(&vec![TrueHuffmanElement { code_size: 9, code: 0 }]).is_err());
}

#[test]
fn three_formats_have_quattro_planes() {
    let found: Vec<bool> =
        [0x1_0023, 0x1_0025, 0x1_0027, 0x1_001e].iter().map(|&t| is_quattro_format(t)).collect();
    assert_eq!(found, vec![true, true, true, false]);
}

fn older(type_format: u32, data: Vec<u8>, mapping: Vec<u16>, tree: HuffTree, offsets: Vec<u32>) -> ImageData {
    let wide = type_format == 0x0003_0005 || type_format == 0x0003_0006;
    ImageData {
        type_: type_format >> 16,
        format: type_format & 0xffff,
        type_format,
        columns: 2,
        rows: 1,
        row_stride: 8,
        huffman: Some(Huffman {
            mapping,
            table: Vec::new(),
            tree,
            row_offsets: offsets,
            rgb8: if wide {
                Area8::empty()
            } else {
                Area8 { data: vec![0; 6], rows: 1, columns: 2, channels: 3, row_stride: 6 }
            },
            x3rgb16: if wide {
                Area16 { data: vec![0; 6], rows: 1, columns: 2, channels: 3, row_stride: 6 }
            } else {
                Area16::empty()
            },
        }),
        tru: None,
        quattro: None,
        data,
    }
}

#[test]
fn packed_images_go_through_their_mapping() {
    let mapping: Vec<u16> = (0..1024).map(|v| 1000 + v).collect();
    let words: [u32; 2] = [1 | 2 << 10 | 3 << 20, 4 | 5 << 10 | 6 << 20];
    let mut data = Vec::new();
    for w in words {
        data.extend_from_slice(&w.to_le_bytes());
    }
    let mut id = older(0x0003_0006, data, mapping, HuffTree::empty(), Vec::new());
    simple_decode(&mut id, 10, 8, Control::none()).unwrap();
    let got = &id.huffman.as_ref().unwrap().x3rgb16.data;
    assert_eq!(got, &vec![1001, 1002, 1003, 2005, 2007, 2009]);
}

#[test]
fn short_packed_images_are_refused() {
    let mut id = older(0x0003_0006, vec![0; 3], vec![0; 1024], HuffTree::empty(), Vec::new());
    assert!(simple_decode(&mut id, 10, 8, Control::none()).is_err());
}

#[test]
fn older_images_are_decoded_by_row() {
    let codes: Vec<(u32, u32, u32)> = vec![(1, 0, 5), (1, 1, 7)];
    let tree = build_tree(&codes).unwrap();
    let mut id = older(0x0003_0005, vec![0b0100_1100], Vec::new(), tree, vec![0]);
    huffman_decode(&mut id, 10, LegacyOffset::default(), Control::none()).unwrap();
    let got = &id.huffman.as_ref().unwrap().x3rgb16.data;
    assert_eq!(got, &vec![5, 7, 5, 10, 14, 12]);
    let token = AtomicBool::new(true);
    assert!(matches!(
        huffman_decode(&mut id, 10, LegacyOffset::default(), Control::new(&token)),
        Err(Error::Cancelled)
    ));
}
