//! The parsed form of an X3F container's image sections.

use crate::area::{Area16, Area8};
use vstd::prelude::*;

verus! {

pub const X3F_IMAGE_RAW_HUFFMAN_X530: u32 = 0x0003_0005;
pub const X3F_IMAGE_RAW_HUFFMAN_10BIT: u32 = 0x0003_0006;
pub const X3F_IMAGE_RAW_TRUE: u32 = 0x0003_001e;
pub const X3F_IMAGE_RAW_MERRILL: u32 = 0x0001_001e;
pub const X3F_IMAGE_RAW_QUATTRO: u32 = 0x0001_0023;
pub const X3F_IMAGE_RAW_SDQ: u32 = 0x0001_0025;
pub const X3F_IMAGE_RAW_SDQH: u32 = 0x0001_0027;
pub const X3F_IMAGE_THUMB_PLAIN: u32 = 0x0002_0003;
pub const X3F_IMAGE_THUMB_HUFFMAN: u32 = 0x0002_000b;
pub const X3F_IMAGE_THUMB_JPEG: u32 = 0x0002_0012;

/// The leaf value of a node that ends no code.
pub const NO_LEAF: u32 = 0xffff_ffff;

/// A node of a Huffman tree: the nodes that a 0 and a 1 bit lead to, and the
/// value of the code that ends here.
#[derive(Clone, Copy, Debug, PartialEq, Eq)]
pub struct HuffNode {
    pub branch: [Option<usize>; 2],
    pub leaf: u32,
}

/// A Huffman tree, rooted at its first node.
#[derive(Debug)]
pub struct HuffTree {
    pub nodes: Vec<HuffNode>,
}

impl HuffTree {
    /// A tree without a root.
    pub fn empty() -> (r: Self)
        ensures
            r.nodes@ == Seq::<HuffNode>::empty(),
    {
        HuffTree { nodes: Vec::new() }
    }
}

/// A code of a TRUE table, left-aligned in its byte.
#[derive(Clone, Copy, Debug, PartialEq, Eq, Structural)]
pub struct TrueHuffmanElement {
    pub code_size: u8,
    pub code: u8,
}

/// A TRUE-coded image.
#[derive(Debug)]
pub struct True {
    pub seed: [u16; 3],
    pub unknown: u16,
    pub table: Vec<TrueHuffmanElement>,
    pub plane_size: Vec<u32>,
    /// Where each plane starts in the image data.
    pub plane_offset: [usize; 3],
    pub tree: HuffTree,
    pub x3rgb16: Area16,
}

/// The size of one Quattro layer.
#[derive(Clone, Copy, Debug, PartialEq, Eq, Structural)]
pub struct QuattroPlane {
    pub columns: u16,
    pub rows: u16,
}

/// What a Quattro image adds to a TRUE-coded one.
#[derive(Debug)]
pub struct Quattro {
    pub plane: [QuattroPlane; 3],
    pub unknown: u32,
    /// Whether the top layer has four samples per lower pixel.
    pub quattro_layout: bool,
    pub top16: Area16,
}

/// A Huffman-coded or packed image of the older cameras.
#[derive(Debug)]
pub struct Huffman {
    pub mapping: Vec<u16>,
    pub table: Vec<u32>,
    pub tree: HuffTree,
    pub row_offsets: Vec<u32>,
    pub rgb8: Area8,
    pub x3rgb16: Area16,
}

/// An image section. Its `data` is empty until the section is loaded.
#[derive(Debug)]
pub struct ImageData {
    pub type_: u32,
    pub format: u32,
    pub type_format: u32,
    pub columns: u32,
    pub rows: u32,
    pub row_stride: u32,
    pub huffman: Option<Huffman>,
    pub tru: Option<True>,
    pub quattro: Option<Quattro>,
    pub data: Vec<u8>,
}

} // verus!
