//! Every section of a container as a text, for looking into one.

use crate::camf::Camf;
use crate::io::{DirectoryEntry, Subsection, X3f};
use crate::print_meta::{
    address, begin, camf_text, dec, header_text, hex, id_text, lit, print_camf_meta_data2,
    print_file_header_meta_data, print_prop_meta_data2, prop_text, put, put_address, put_dec,
    put_hex, put_id, put_items, raw, Item,
};
use crate::properties::PropertyList;
use crate::types::{Huffman, ImageData, Quattro, True};
use vstd::prelude::*;

verus! {

/// A line with a number in hexadecimal.
pub open spec fn hex_line(label: &str, n: u32, width: nat) -> Seq<Item> {
    lit(label) + hex(n, width) + lit("\n")
}

/// A line with a number in hexadecimal and in decimal.
pub open spec fn both_line(label: &str, n: u32) -> Seq<Item> {
    lit(label) + hex(n, 8) + lit(" (") + dec(n, 0) + lit(")\n")
}

/// A line with a signature.
pub open spec fn id_line(label: &str, id: u32) -> Seq<Item> {
    lit(label) + hex(id, 8) + lit(" (") + raw(id_text(id)) + lit(")\n")
}

/// A line with an address.
pub open spec fn address_line(label: &str, present: bool) -> Seq<Item> {
    lit(label) + address(present) + lit("\n")
}

/// A line with a table: its length, and its address unless it is empty.
pub open spec fn table_line(label: &str, len: nat) -> Seq<Item> {
    lit(label) + hex(len as u32, 0) + lit(" ") + address(len > 0) + lit("\n")
}

/// A line with a tree: its number of nodes, and its address unless it is empty.
pub open spec fn tree_line(label: &str, nodes: nat) -> Seq<Item> {
    lit(label) + dec(nodes as u32, 0) + lit(" ") + address(nodes > 0) + lit("\n")
}

/// A line with a raster: its size, and its address unless it is empty.
pub open spec fn area_line(label: &str, columns: u32, rows: u32, present: bool) -> Seq<Item> {
    lit(label) + hex(columns, 0) + lit(" ") + hex(rows, 0) + lit(" ") + address(present) + lit("\n")
}

fn put_hex_line(out: &mut Vec<Item>, label: &str, n: u32, width: usize)
    ensures
        final(out)@ == old(out)@ + hex_line(label, n, width as nat),
{
    let mut line: Vec<Item> = begin(label);
    put_hex(&mut line, n, width);
    put(&mut line, "\n");
    put_items(out, &line);
}

fn put_both_line(out: &mut Vec<Item>, label: &str, n: u32)
    ensures
        final(out)@ == old(out)@ + both_line(label, n),
{
    let mut line: Vec<Item> = begin(label);
    put_hex(&mut line, n, 8);
    put(&mut line, " (");
    put_dec(&mut line, n, 0);
    put(&mut line, ")\n");
    put_items(out, &line);
}

fn put_id_line(out: &mut Vec<Item>, label: &str, id: u32)
    ensures
        final(out)@ == old(out)@ + id_line(label, id),
{
    let mut line: Vec<Item> = begin(label);
    put_hex(&mut line, id, 8);
    put(&mut line, " (");
    put_id(&mut line, id);
    put(&mut line, ")\n");
    put_items(out, &line);
}

fn put_address_line(out: &mut Vec<Item>, label: &str, present: bool)
    ensures
        final(out)@ == old(out)@ + address_line(label, present),
{
    let mut line: Vec<Item> = begin(label);
    put_address(&mut line, present);
    put(&mut line, "\n");
    put_items(out, &line);
}

fn put_table_line(out: &mut Vec<Item>, label: &str, len: usize)
    ensures
        final(out)@ == old(out)@ + table_line(label, len as nat),
{
    let mut line: Vec<Item> = begin(label);
    put_hex(&mut line, len as u32, 0);
    put(&mut line, " ");
    put_address(&mut line, len > 0);
    put(&mut line, "\n");
    put_items(out, &line);
}

fn put_tree_line(out: &mut Vec<Item>, label: &str, nodes: usize)
    ensures
        final(out)@ == old(out)@ + tree_line(label, nodes as nat),
{
    let mut line: Vec<Item> = begin(label);
    put_dec(&mut line, nodes as u32, 0);
    put(&mut line, " ");
    put_address(&mut line, nodes > 0);
    put(&mut line, "\n");
    put_items(out, &line);
}

fn put_area_line(out: &mut Vec<Item>, label: &str, columns: u32, rows: u32, present: bool)
    ensures
        final(out)@ == old(out)@ + area_line(label, columns, rows, present),
{
    let mut line: Vec<Item> = begin(label);
    put_hex(&mut line, columns, 0);
    put(&mut line, " ");
    put_hex(&mut line, rows, 0);
    put(&mut line, " ");
    put_address(&mut line, present);
    put(&mut line, "\n");
    put_items(out, &line);
}

/// A property section.
pub open spec fn property_list_text(pl: PropertyList) -> Seq<Item> {
    lit("      data_subsection.property_list.\n") + hex_line(
        "        num_properties   = ",
        pl.num_properties,
        8,
    ) + hex_line("        character_format = ", pl.character_format, 8) + hex_line(
        "        reserved         = ",
        pl.reserved,
        8,
    ) + hex_line("        total_length     = ", pl.total_length, 8) + table_line(
        "    property_table       = ",
        pl.properties@.len(),
    ) + address_line("        data             = ", pl.data@.len() > 0) + hex_line(
        "        data_size        = ",
        pl.data@.len() as u32,
        0,
    ) + prop_text(pl.properties@)
}

fn print_property_list(pl: &PropertyList) -> (out: Vec<Item>)
    ensures
        out@ == property_list_text(*pl),
{
    let mut out: Vec<Item> = begin("      data_subsection.property_list.\n");
    put_hex_line(&mut out, "        num_properties   = ", pl.num_properties, 8);
    put_hex_line(&mut out, "        character_format = ", pl.character_format, 8);
    put_hex_line(&mut out, "        reserved         = ", pl.reserved, 8);
    put_hex_line(&mut out, "        total_length     = ", pl.total_length, 8);
    put_table_line(&mut out, "    property_table       = ", pl.properties.len());
    put_address_line(&mut out, "        data             = ", pl.data.len() > 0);
    put_hex_line(&mut out, "        data_size        = ", pl.data.len() as u32, 0);
    let properties: Vec<Item> = print_prop_meta_data2(&pl.properties);
    put_items(&mut out, &properties);
    out
}

/// The decoder state of an image of the older cameras.
pub open spec fn huffman_text(huf: Option<Huffman>) -> Seq<Item> {
    match huf {
        None => address_line("        huffman     = ", false),
        Some(h) => lit("        huffman->\n") + table_line(
            "          mapping     = ",
            h.mapping@.len(),
        ) + table_line("          table       = ", h.table@.len()) + tree_line(
            "          tree        = ",
            h.tree.nodes@.len(),
        ) + table_line("          row_offsets = ", h.row_offsets@.len()) + area_line(
            "          rgb8        = ",
            h.rgb8.columns,
            h.rgb8.rows,
            h.rgb8.data@.len() > 0,
        ) + area_line(
            "          x3rgb16     = ",
            h.x3rgb16.columns,
            h.x3rgb16.rows,
            h.x3rgb16.data@.len() > 0,
        ),
    }
}

fn print_huffman(huf: &Option<Huffman>) -> (out: Vec<Item>)
    ensures
        out@ == huffman_text(*huf),
{
    let mut out: Vec<Item> = Vec::new();
    match huf {
        None => {
            put_address_line(&mut out, "        huffman     = ", false);
        },
        Some(h) => {
            out = begin("        huffman->\n");
            put_table_line(&mut out, "          mapping     = ", h.mapping.len());
            put_table_line(&mut out, "          table       = ", h.table.len());
            put_tree_line(&mut out, "          tree        = ", h.tree.nodes.len());
            put_table_line(&mut out, "          row_offsets = ", h.row_offsets.len());
            put_area_line(
                &mut out,
                "          rgb8        = ",
                h.rgb8.columns,
                h.rgb8.rows,
                h.rgb8.data.len() > 0,
            );
            put_area_line(
                &mut out,
                "          x3rgb16     = ",
                h.x3rgb16.columns,
                h.x3rgb16.rows,
                h.x3rgb16.data.len() > 0,
            );
        },
    }
    out
}

/// The first `n` sizes of planes.
pub open spec fn plane_sizes_text(sizes: Seq<u32>, n: nat) -> Seq<Item>
    decreases n,
{
    if n == 0 {
        Seq::empty()
    } else {
        plane_sizes_text(sizes, (n - 1) as nat) + (lit(" ") + dec(sizes[n - 1], 0))
    }
}

/// The sizes of the planes, and where they are.
pub open spec fn planes_text(sizes: Seq<u32>) -> Seq<Item> {
    lit("          plane_size  = ") + hex(sizes.len() as u32, 0) + lit(" ") + address(
        sizes.len() > 0,
    ) + lit(" (") + plane_sizes_text(sizes, sizes.len()) + lit(" )\n") + lit(
        "          plane_address (",
    ) + lit(" ") + address(true) + lit(" ") + address(true) + lit(" ") + address(true) + lit(
        " )\n",
    )
}

/// The decoder state of a TRUE-coded image.
pub open spec fn true_text(tru: Option<True>) -> Seq<Item> {
    match tru {
        None => address_line("        tru         = ", false),
        Some(t) => lit("        tru->\n") + hex_line(
            "          seed[0]     = ",
            t.seed@[0] as u32,
            0,
        ) + hex_line("          seed[1]     = ", t.seed@[1] as u32, 0) + hex_line(
            "          seed[2]     = ",
            t.seed@[2] as u32,
            0,
        ) + hex_line("          unknown     = ", t.unknown as u32, 0) + table_line(
            "          table       = ",
            t.table@.len(),
        ) + planes_text(t.plane_size@) + tree_line(
            "          tree        = ",
            t.tree.nodes@.len(),
        ) + area_line(
            "          x3rgb16     = ",
            t.x3rgb16.columns,
            t.x3rgb16.rows,
            t.x3rgb16.data@.len() > 0,
        ),
    }
}

fn print_plane_sizes(sizes: &Vec<u32>) -> (out: Vec<Item>)
    ensures
        out@ == plane_sizes_text(sizes@, sizes@.len()),
{
    let mut out: Vec<Item> = Vec::new();
    let mut i: usize = 0;
    while i < sizes.len()
        invariant
            i <= sizes@.len(),
            out@ == plane_sizes_text(sizes@, i as nat),
        decreases sizes@.len() - i,
    {
        let mut size: Vec<Item> = begin(" ");
        put_dec(&mut size, sizes[i], 0);
        put_items(&mut out, &size);
        i = i + 1;
    }
    out
}

fn print_planes(sizes: &Vec<u32>) -> (out: Vec<Item>)
    ensures
        out@ == planes_text(sizes@),
{
    let mut out: Vec<Item> = begin("          plane_size  = ");
    put_hex(&mut out, sizes.len() as u32, 0);
    put(&mut out, " ");
    put_address(&mut out, sizes.len() > 0);
    put(&mut out, " (");
    let list: Vec<Item> = print_plane_sizes(sizes);
    put_items(&mut out, &list);
    put(&mut out, " )\n");
    put(&mut out, "          plane_address (");
    put(&mut out, " ");
    put_address(&mut out, true);
    put(&mut out, " ");
    put_address(&mut out, true);
    put(&mut out, " ");
    put_address(&mut out, true);
    put(&mut out, " )\n");
    out
}

fn print_true(tru: &Option<True>) -> (out: Vec<Item>)
    ensures
        out@ == true_text(*tru),
{
    let mut out: Vec<Item> = Vec::new();
    match tru {
        None => {
            put_address_line(&mut out, "        tru         = ", false);
        },
        Some(t) => {
            out = begin("        tru->\n");
            put_hex_line(&mut out, "          seed[0]     = ", t.seed[0] as u32, 0);
            put_hex_line(&mut out, "          seed[1]     = ", t.seed[1] as u32, 0);
            put_hex_line(&mut out, "          seed[2]     = ", t.seed[2] as u32, 0);
            put_hex_line(&mut out, "          unknown     = ", t.unknown as u32, 0);
            put_table_line(&mut out, "          table       = ", t.table.len());
            let planes: Vec<Item> = print_planes(&t.plane_size);
            put_items(&mut out, &planes);
            put_tree_line(&mut out, "          tree        = ", t.tree.nodes.len());
            put_area_line(
                &mut out,
                "          x3rgb16     = ",
                t.x3rgb16.columns,
                t.x3rgb16.rows,
                t.x3rgb16.data.len() > 0,
            );
        },
    }
    out
}

/// The size of a layer.
pub open spec fn layer_text(q: Quattro, i: int) -> Seq<Item> {
    lit(" ") + dec(q.plane@[i].columns as u32, 0) + lit("x") + dec(q.plane@[i].rows as u32, 0)
}

/// What a Quattro image adds.
pub open spec fn quattro_text(quattro: Option<Quattro>) -> Seq<Item> {
    match quattro {
        None => address_line("        quattro     = ", false),
        Some(q) => lit("        quattro->\n") + lit("          planes (") + layer_text(q, 0)
            + layer_text(q, 1) + layer_text(q, 2) + lit(" )\n") + lit("          unknown     = ")
            + hex(q.unknown, 0) + lit(" ") + dec(q.unknown, 0) + lit("\n"),
    }
}

fn put_layer(out: &mut Vec<Item>, q: &Quattro, i: usize)
    requires
        i < 3,
    ensures
        final(out)@ == old(out)@ + layer_text(*q, i as int),
{
    let mut layer: Vec<Item> = begin(" ");
    put_dec(&mut layer, q.plane[i].columns as u32, 0);
    put(&mut layer, "x");
    put_dec(&mut layer, q.plane[i].rows as u32, 0);
    put_items(out, &layer);
}

fn print_quattro(quattro: &Option<Quattro>) -> (out: Vec<Item>)
    ensures
        out@ == quattro_text(*quattro),
{
    let mut out: Vec<Item> = Vec::new();
    match quattro {
        None => {
            put_address_line(&mut out, "        quattro     = ", false);
        },
        Some(q) => {
            out = begin("        quattro->\n");
            put(&mut out, "          planes (");
            put_layer(&mut out, q, 0);
            put_layer(&mut out, q, 1);
            put_layer(&mut out, q, 2);
            put(&mut out, " )\n");
            put(&mut out, "          unknown     = ");
            put_hex(&mut out, q.unknown, 0);
            put(&mut out, " ");
            put_dec(&mut out, q.unknown, 0);
            put(&mut out, "\n");
        },
    }
    out
}

/// An image section.
pub open spec fn image_text(id: ImageData) -> Seq<Item> {
    lit("      data_subsection.image_data.\n") + hex_line("        type        = ", id.type_, 8)
        + hex_line("        format      = ", id.format, 8) + hex_line(
        "        type_format = ",
        id.type_format,
        8,
    ) + both_line("        columns     = ", id.columns) + both_line(
        "        rows        = ",
        id.rows,
    ) + both_line("        row_stride  = ", id.row_stride) + huffman_text(id.huffman) + true_text(
        id.tru,
    ) + quattro_text(id.quattro) + address_line("        data        = ", id.data@.len() > 0)
}

fn print_image(id: &ImageData) -> (out: Vec<Item>)
    ensures
        out@ == image_text(*id),
{
    let mut out: Vec<Item> = begin("      data_subsection.image_data.\n");
    put_hex_line(&mut out, "        type        = ", id.type_, 8);
    put_hex_line(&mut out, "        format      = ", id.format, 8);
    put_hex_line(&mut out, "        type_format = ", id.type_format, 8);
    put_both_line(&mut out, "        columns     = ", id.columns);
    put_both_line(&mut out, "        rows        = ", id.rows);
    put_both_line(&mut out, "        row_stride  = ", id.row_stride);
    let huffman: Vec<Item> = print_huffman(&id.huffman);
    put_items(&mut out, &huffman);
    let tru: Vec<Item> = print_true(&id.tru);
    put_items(&mut out, &tru);
    let quattro: Vec<Item> = print_quattro(&id.quattro);
    put_items(&mut out, &quattro);
    put_address_line(&mut out, "        data        = ", id.data.len() > 0);
    out
}

/// The part of a metadata section's header that depends on its type.
pub open spec fn camf_type_text(camf: Camf) -> Seq<Item> {
    if camf.type_ == 2 {
        lit("        type2\n") + hex_line("          reserved         = ", camf.val0, 0) + id_line(
            "          infotype         = ",
            camf.val1,
        ) + hex_line("          infotype_version = ", camf.val2, 8) + hex_line(
            "          crypt_key        = ",
            camf.val3,
            8,
        )
    } else if camf.type_ == 4 {
        lit("        type4\n") + hex_line("          decoded_data_size= ", camf.val0, 0) + hex_line(
            "          decode_bias      = ",
            camf.val1,
            0,
        ) + hex_line("          block_size       = ", camf.val2, 0) + hex_line(
            "          block_count      = ",
            camf.val3,
            0,
        )
    } else if camf.type_ == 5 {
        lit("        type5\n") + hex_line("          decoded_data_size= ", camf.val0, 0) + hex_line(
            "          decode_bias      = ",
            camf.val1,
            0,
        ) + hex_line("          unknown2         = ", camf.val2, 0) + hex_line(
            "          unknown3         = ",
            camf.val3,
            0,
        )
    } else {
        lit("       (Unknown CAMF type)\n") + hex_line("          val0             = ", camf.val0, 0)
            + hex_line("          val1             = ", camf.val1, 0) + hex_line(
            "          val2             = ",
            camf.val2,
            0,
        ) + hex_line("          val3             = ", camf.val3, 0)
    }
}

fn print_camf_type(camf: &Camf) -> (out: Vec<Item>)
    ensures
        out@ == camf_type_text(*camf),
{
    let mut out: Vec<Item> = Vec::new();
    if camf.type_ == 2 {
        out = begin("        type2\n");
        put_hex_line(&mut out, "          reserved         = ", camf.val0, 0);
        put_id_line(&mut out, "          infotype         = ", camf.val1);
        put_hex_line(&mut out, "          infotype_version = ", camf.val2, 8);
        put_hex_line(&mut out, "          crypt_key        = ", camf.val3, 8);
    } else if camf.type_ == 4 {
        out = begin("        type4\n");
        put_hex_line(&mut out, "          decoded_data_size= ", camf.val0, 0);
        put_hex_line(&mut out, "          decode_bias      = ", camf.val1, 0);
        put_hex_line(&mut out, "          block_size       = ", camf.val2, 0);
        put_hex_line(&mut out, "          block_count      = ", camf.val3, 0);
    } else if camf.type_ == 5 {
        out = begin("        type5\n");
        put_hex_line(&mut out, "          decoded_data_size= ", camf.val0, 0);
        put_hex_line(&mut out, "          decode_bias      = ", camf.val1, 0);
        put_hex_line(&mut out, "          unknown2         = ", camf.val2, 0);
        put_hex_line(&mut out, "          unknown3         = ", camf.val3, 0);
    } else {
        out = begin("       (Unknown CAMF type)\n");
        put_hex_line(&mut out, "          val0             = ", camf.val0, 0);
        put_hex_line(&mut out, "          val1             = ", camf.val1, 0);
        put_hex_line(&mut out, "          val2             = ", camf.val2, 0);
        put_hex_line(&mut out, "          val3             = ", camf.val3, 0);
    }
    out
}

/// A metadata section. A coded body has a place where its coded part starts.
pub open spec fn camf_data_text(camf: Camf, max: u32, particulars: bool) -> Seq<Item> {
    lit("      data_subsection.camf.\n") + hex_line("        type             = ", camf.type_, 0)
        + camf_type_text(camf) + address_line(
        "        data             = ",
        camf.data@.len() > 0,
    ) + hex_line("        data_size        = ", camf.data@.len() as u32, 0) + address_line(
        "        decoding_start   = ",
        camf.data@.len() > 0 && (camf.type_ == 4 || camf.type_ == 5),
    ) + hex_line("        decoding_size    = ", camf.decoding_size, 0) + table_line(
        "        table            = ",
        camf.table@.len(),
    ) + tree_line("          tree           = ", camf.tree.nodes@.len()) + address_line(
        "        decoded_data     = ",
        camf.decoded_data@.len() > 0,
    ) + hex_line("        decoded_data_size= ", camf.decoded_data@.len() as u32, 0) + table_line(
        "        entry_table      = ",
        camf.entries@.len(),
    ) + camf_text(camf.entries@, max, particulars)
}

fn print_camf(camf: &Camf, max: u32, particulars: bool) -> (out: Vec<Item>)
    requires
        forall|i: int| 0 <= i < camf.entries@.len() ==> (#[trigger] camf.entries@[i]).inv(),
    ensures
        out@ == camf_data_text(*camf, max, particulars),
{
    let loaded: bool = camf.data.len() > 0;
    let mut out: Vec<Item> = begin("      data_subsection.camf.\n");
    put_hex_line(&mut out, "        type             = ", camf.type_, 0);
    let kind: Vec<Item> = print_camf_type(camf);
    put_items(&mut out, &kind);
    put_address_line(&mut out, "        data             = ", loaded);
    put_hex_line(&mut out, "        data_size        = ", camf.data.len() as u32, 0);
    put_address_line(
        &mut out,
        "        decoding_start   = ",
        loaded && (camf.type_ == 4 || camf.type_ == 5),
    );
    put_hex_line(&mut out, "        decoding_size    = ", camf.decoding_size, 0);
    put_table_line(&mut out, "        table            = ", camf.table.len());
    put_tree_line(&mut out, "          tree           = ", camf.tree.nodes.len());
    put_address_line(&mut out, "        decoded_data     = ", camf.decoded_data.len() > 0);
    put_hex_line(&mut out, "        decoded_data_size= ", camf.decoded_data.len() as u32, 0);
    put_table_line(&mut out, "        entry_table      = ", camf.entries.len());
    let entries: Vec<Item> = print_camf_meta_data2(&camf.entries, max, particulars);
    put_items(&mut out, &entries);
    out
}

/// A section.
pub open spec fn section_text(de: DirectoryEntry, max: u32, particulars: bool) -> Seq<Item> {
    lit("  directory_entry.\n") + lit("    input.\n") + hex_line(
        "      offset = ",
        de.input.offset,
        8,
    ) + hex_line("      size   = ", de.input.size, 8) + lit("    output.\n") + hex_line(
        "      offset = ",
        de.output.offset,
        8,
    ) + hex_line("      size   = ", de.output.size, 8) + id_line("    type     = ", de.type_) + lit(
        "    header.\n",
    ) + id_line("      identifier = ", de.identifier) + hex_line(
        "      version    = ",
        de.version,
        8,
    ) + (match de.data {
        Subsection::PropertyList(pl) => property_list_text(pl),
        Subsection::Image(id) => image_text(id),
        Subsection::Camf(camf) => camf_data_text(camf, max, particulars),
        Subsection::Other => Seq::empty(),
    })
}

fn print_section(de: &DirectoryEntry, max: u32, particulars: bool) -> (out: Vec<Item>)
    requires
        de.inv(),
    ensures
        out@ == section_text(*de, max, particulars),
{
    let mut out: Vec<Item> = begin("  directory_entry.\n");
    put(&mut out, "    input.\n");
    put_hex_line(&mut out, "      offset = ", de.input.offset, 8);
    put_hex_line(&mut out, "      size   = ", de.input.size, 8);
    put(&mut out, "    output.\n");
    put_hex_line(&mut out, "      offset = ", de.output.offset, 8);
    put_hex_line(&mut out, "      size   = ", de.output.size, 8);
    put_id_line(&mut out, "    type     = ", de.type_);
    put(&mut out, "    header.\n");
    put_id_line(&mut out, "      identifier = ", de.identifier);
    put_hex_line(&mut out, "      version    = ", de.version, 8);
    let data: Vec<Item> = match &de.data {
        Subsection::PropertyList(pl) => print_property_list(pl),
        Subsection::Image(id) => print_image(id),
        Subsection::Camf(camf) => print_camf(camf, max, particulars),
        Subsection::Other => Vec::new(),
    };
    put_items(&mut out, &data);
    out
}

/// The first `n` sections.
pub open spec fn sections_text(
    directory: Seq<DirectoryEntry>,
    max: u32,
    particulars: bool,
    n: nat,
) -> Seq<Item>
    decreases n,
{
    if n == 0 {
        Seq::empty()
    } else {
        sections_text(directory, max, particulars, (n - 1) as nat) + section_text(
            directory[n - 1],
            max,
            particulars,
        )
    }
}

/// What is known of a container as a whole.
pub open spec fn info_text() -> Seq<Item> {
    lit("info.\n") + lit("  error = (null)\n") + lit("  input.\n") + address_line(
        "    file = ",
        true,
    ) + lit("  output.\n") + address_line("    file = ", false)
}

/// The head of the directory.
pub open spec fn directory_text(x3f: X3f) -> Seq<Item> {
    lit("directory_section.\n") + id_line(
        "  identifier            = ",
        x3f.directory_identifier,
    ) + hex_line("  version               = ", x3f.directory_version, 8) + hex_line(
        "  num_directory_entries = ",
        x3f.directory@.len() as u32,
        8,
    ) + address_line("  directory_entry       = ", x3f.directory@.len() > 0)
}

/// A container: its header, and every section.
pub open spec fn container_text(x3f: Option<&X3f<'_>>, max: u32, particulars: bool) -> Seq<Item> {
    match x3f {
        None => lit("Null x3f\n"),
        Some(x3f) => info_text() + header_text(x3f.header) + directory_text(*x3f) + sections_text(
            x3f.directory@,
            max,
            particulars,
            x3f.directory@.len(),
        ),
    }
}

fn print_info() -> (out: Vec<Item>)
    ensures
        out@ == info_text(),
{
    let mut out: Vec<Item> = begin("info.\n");
    put(&mut out, "  error = (null)\n");
    put(&mut out, "  input.\n");
    put_address_line(&mut out, "    file = ", true);
    put(&mut out, "  output.\n");
    put_address_line(&mut out, "    file = ", false);
    out
}

fn print_directory(x3f: &X3f<'_>) -> (out: Vec<Item>)
    ensures
        out@ == directory_text(*x3f),
{
    let mut out: Vec<Item> = begin("directory_section.\n");
    put_id_line(&mut out, "  identifier            = ", x3f.directory_identifier);
    put_hex_line(&mut out, "  version               = ", x3f.directory_version, 8);
    put_hex_line(&mut out, "  num_directory_entries = ", x3f.directory.len() as u32, 8);
    put_address_line(&mut out, "  directory_entry       = ", x3f.directory.len() > 0);
    out
}

fn print_sections(directory: &Vec<DirectoryEntry>, max: u32, particulars: bool) -> (out: Vec<Item>)
    requires
        forall|i: int| 0 <= i < directory@.len() ==> (#[trigger] directory@[i]).inv(),
    ensures
        out@ == sections_text(directory@, max, particulars, directory@.len()),
{
    let mut out: Vec<Item> = Vec::new();
    let mut i: usize = 0;
    while i < directory.len()
        invariant
            i <= directory@.len(),
            forall|k: int| 0 <= k < directory@.len() ==> (#[trigger] directory@[k]).inv(),
            out@ == sections_text(directory@, max, particulars, i as nat),
        decreases directory@.len() - i,
    {
        assert(directory@[i as int].inv());
        let section: Vec<Item> = print_section(&directory[i], max, particulars);
        put_items(&mut out, &section);
        i = i + 1;
    }
    out
}

/// A container: its header, and every section. Of a matrix, no more than `max`
/// elements are written.
pub fn x3f_print_meta(x3f: Option<&X3f<'_>>, max: u32, particulars: bool) -> (out: Vec<Item>)
    requires
        x3f matches Some(x) ==> x.inv(),
    ensures
        out@ == container_text(x3f, max, particulars),
{
    match x3f {
        None => begin("Null x3f\n"),
        Some(x3f) => {
            let mut out: Vec<Item> = print_info();
            let header: Vec<Item> = print_file_header_meta_data(&x3f.header);
            put_items(&mut out, &header);
            let directory: Vec<Item> = print_directory(x3f);
            put_items(&mut out, &directory);
            let sections: Vec<Item> = print_sections(&x3f.directory, max, particulars);
            put_items(&mut out, &sections);
            out
        },
    }
}

} // verus!
