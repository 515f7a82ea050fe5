//! The rasters of a container, and windows into them: by coordinates, and by
//! rectangles that the metadata name.

use crate::area::{Area16, Window};
use crate::camf::MatrixData;
use crate::io::{x3f_get_raw, Subsection, X3f};
use crate::meta::{camf_matrix, camf_numbers, lemma_four, x3f_get_camf_matrix, MatrixType};
use crate::types::ImageData;
use vstd::prelude::*;
use vstd::string::StringSliceAdditionalSpecFns;

verus! {

/// The side of the sensor that a shielded column range lies on.
#[derive(Clone, Copy, Debug, PartialEq, Eq, Structural)]
pub enum ColSide {
    Wrong,
    Left,
    Right,
}

/// The 16-bit raster of an image, if it is decoded.
pub open spec fn raster_of(id: ImageData) -> Option<Area16> {
    let area = if id.tru is Some {
        Some(id.tru->0.x3rgb16)
    } else if id.huffman is Some {
        Some(id.huffman->0.x3rgb16)
    } else {
        None
    };
    match area {
        Some(a) => if a.data@.len() == 0 {
            None
        } else {
            Some(a)
        },
        None => None,
    }
}

/// The raster of a Quattro image's top layer, if it has one of its own.
pub open spec fn top_of(id: ImageData) -> Option<Area16> {
    match id.quattro {
        Some(q) => if q.top16.data@.len() == 0 {
            None
        } else {
            Some(q.top16)
        },
        None => None,
    }
}

/// The 16-bit raster of an image, if it is decoded.
pub fn image_raster(id: &ImageData) -> (r: Option<&Area16>)
    ensures
        match r {
            Some(area) => raster_of(*id) == Some(*area),
            None => raster_of(*id) is None,
        },
{
    let area: &Area16 = match &id.tru {
        Some(tru) => &tru.x3rgb16,
        None => match &id.huffman {
            Some(huffman) => &huffman.x3rgb16,
            None => {
                return None;
            },
        },
    };
    if area.data.len() == 0 {
        None
    } else {
        Some(area)
    }
}

/// The raster of a Quattro image's top layer, if it has one of its own.
pub fn image_top(id: &ImageData) -> (r: Option<&Area16>)
    ensures
        match r {
            Some(area) => top_of(*id) == Some(*area),
            None => top_of(*id) is None,
        },
{
    match &id.quattro {
        Some(q) => if q.top16.data.len() == 0 {
            None
        } else {
            Some(&q.top16)
        },
        None => None,
    }
}

/// Whether `de` is the place of the raw image, as `x3f_get_raw` finds it, or
/// there is none.
pub open spec fn is_raw(x3f: X3f, de: Option<usize>) -> bool {
    match de {
        Some(i) => exists|f: int|
            0 <= f < crate::io::raw_formats().len() && crate::io::is_first_entry(
                x3f.directory@,
                crate::io::X3F_SECI,
                #[trigger] crate::io::raw_formats()[f],
                de,
            ) && forall|g: int|
                0 <= g < f ==> !crate::io::has_format(x3f, #[trigger] crate::io::raw_formats()[g]),
        None => forall|g: int|
            0 <= g < crate::io::raw_formats().len() ==> !crate::io::has_format(
                x3f,
                #[trigger] crate::io::raw_formats()[g],
            ),
    }
}

/// The decoded raster of the container's raw image.
pub fn x3f_image_area<'b>(x3f: &'b X3f<'_>) -> (r: Option<&'b Area16>)
    ensures
        match r {
            Some(area) => exists|i: usize|
                #![trigger x3f.directory@[i as int]]
                is_raw(*x3f, Some(i)) && x3f.directory@[i as int].data is Image && raster_of(
                    x3f.directory@[i as int].data->Image_0,
                ) == Some(*area),
            None => is_raw(*x3f, None) || exists|i: usize|
                #![trigger x3f.directory@[i as int]]
                is_raw(*x3f, Some(i)) && raster_of(x3f.directory@[i as int].data->Image_0) is None,
        },
{
    match x3f_get_raw(x3f) {
        Some(i) => {
            assert(is_raw(*x3f, Some(i)));
            let de: &crate::io::DirectoryEntry = &x3f.directory[i];
            assert(x3f.directory@[i as int] == *de);
            match &de.data {
                Subsection::Image(id) => image_raster(id),
                _ => None,
            }
        },
        None => {
            assert(is_raw(*x3f, None));
            None
        },
    }
}

/// The decoded top layer of the container's raw image.
pub fn x3f_image_area_qtop<'b>(x3f: &'b X3f<'_>) -> (r: Option<&'b Area16>)
    ensures
        match r {
            Some(area) => exists|i: usize|
                #![trigger x3f.directory@[i as int]]
                is_raw(*x3f, Some(i)) && x3f.directory@[i as int].data is Image && top_of(
                    x3f.directory@[i as int].data->Image_0,
                ) == Some(*area),
            None => is_raw(*x3f, None) || exists|i: usize|
                #![trigger x3f.directory@[i as int]]
                is_raw(*x3f, Some(i)) && top_of(x3f.directory@[i as int].data->Image_0) is None,
        },
{
    match x3f_get_raw(x3f) {
        Some(i) => {
            assert(is_raw(*x3f, Some(i)));
            let de: &crate::io::DirectoryEntry = &x3f.directory[i];
            assert(x3f.directory@[i as int] == *de);
            match &de.data {
                Subsection::Image(id) => image_top(id),
                _ => None,
            }
        },
        None => {
            assert(is_raw(*x3f, None));
            None
        },
    }
}

/// Whether a rectangle, given by its first and last column and row as (first
/// column, first row, last column, last row), lies within an image.
pub open spec fn rect_fits(coord: Seq<u32>, columns: u32, rows: u32) -> bool {
    coord[0] <= coord[2] < columns && coord[1] <= coord[3] < rows
}

/// The window that a rectangle cuts out of another one.
pub open spec fn crop_of(coord: Seq<u32>, image: Window) -> Window {
    Window {
        offset: (image.offset + image.channels * coord[0] + image.row_stride
            * coord[1]) as usize,
        rows: (coord[3] - coord[1] + 1) as u32,
        columns: (coord[2] - coord[0] + 1) as u32,
        channels: image.channels,
        row_stride: image.row_stride,
    }
}

/// A crop stays within the buffer of its image, and its pixels are the pixels
/// of the image from the rectangle's first column and row on.
pub proof fn law_crop_is_a_view(coord: Seq<u32>, image: Window, len: int)
    requires
        coord.len() == 4,
        image.inside(len),
        len <= usize::MAX,
        rect_fits(coord, image.columns, image.rows),
    ensures
        crop_of(coord, image).inside(len),
        forall|row: int, column: int, channel: int|
            crop_of(coord, image).in_range(row, column, channel) ==> image.in_range(
                row + coord[1],
                column + coord[0],
                channel,
            ) && #[trigger] crop_of(coord, image).index(row, column, channel) == image.index(
                row + coord[1],
                column + coord[0],
                channel,
            ),
{
    let crop = crop_of(coord, image);
    let (n, s) = (image.channels as int, image.row_stride as int);
    let (x0, y0, x1, y1) = (coord[0] as int, coord[1] as int, coord[2] as int, coord[3] as int);
    let (w, h) = (image.columns as int, image.rows as int);
    // The crop's last sample is a sample of its image.
    assert(0 <= n * x0 && 0 <= s * y0) by (nonlinear_arith)
        requires
            n >= 0,
            s >= 0,
            x0 >= 0,
            y0 >= 0,
    ;
    assert(n * x0 + (x1 - x0 + 1) * n <= w * n) by (nonlinear_arith)
        requires
            x1 + 1 <= w,
            n >= 0,
    ;
    assert(s * y0 + (y1 - y0) * s <= (h - 1) * s) by (nonlinear_arith)
        requires
            y1 <= h - 1,
            s >= 0,
    ;
    assert(0 <= (y1 - y0) * s && 0 <= (x1 - x0 + 1) * n) by (nonlinear_arith)
        requires
            y0 <= y1,
            x0 <= x1,
            n >= 0,
            s >= 0,
    ;
    assert((x1 - x0 + 1) * n <= w * n) by (nonlinear_arith)
        requires
            x1 + 1 <= w,
            x0 >= 0,
            n >= 0,
    ;
    assert(crop.offset == image.offset + n * x0 + s * y0);
    assert forall|row: int, column: int, channel: int| crop.in_range(
        row,
        column,
        channel,
    ) implies image.in_range(row + y0, column + x0, channel) && #[trigger] crop.index(
        row,
        column,
        channel,
    ) == image.index(row + y0, column + x0, channel) by {
        assert((row + y0) * s == row * s + s * y0) by (nonlinear_arith);
        assert((column + x0) * n == column * n + n * x0) by (nonlinear_arith);
    }
}

/// Cuts a rectangle out of a window.
pub fn x3f_crop_area(coord: &[u32; 4], image: &Window, len: usize) -> (r: Option<Window>)
    requires
        image.inside(len as int),
    ensures
        match r {
            Some(crop) => {
                &&& rect_fits(coord@, image.columns, image.rows)
                &&& crop == crop_of(coord@, *image)
                &&& crop.inside(len as int)
            },
            None => !rect_fits(coord@, image.columns, image.rows),
        },
{
    if coord[0] > coord[2] || coord[1] > coord[3] {
        return None;
    }
    if coord[2] >= image.columns || coord[3] >= image.rows {
        return None;
    }
    proof {
        law_crop_is_a_view(coord@, *image, len as int);
        image.lemma_channels(coord[0] as int, coord[1] as int, len as int);
    }
    Some(
        Window {
            offset: image.offset + image.channels as usize * coord[0] as usize
                + image.row_stride as usize * coord[1] as usize,
            rows: coord[3] - coord[1] + 1,
            columns: coord[2] - coord[0] + 1,
            channels: image.channels,
            row_stride: image.row_stride,
        },
    )
}

/// Cuts a rectangle out of a window into a raster of bytes.
pub fn x3f_crop_area8(coord: &[u32; 4], image: &Window, len: usize) -> (r: Option<Window>)
    requires
        image.inside(len as int),
    ensures
        match r {
            Some(crop) => {
                &&& rect_fits(coord@, image.columns, image.rows)
                &&& crop == crop_of(coord@, *image)
                &&& crop.inside(len as int)
            },
            None => !rect_fits(coord@, image.columns, image.rows),
        },
{
    x3f_crop_area(coord, image, len)
}

/// Four unsigned numbers of the metadata, with these dimensions; zeros where
/// their matrix has no elements.
pub open spec fn camf_four(x3f: X3f, name: Seq<u8>, dim0: u32, dim1: u32) -> Option<Seq<u32>> {
    match camf_numbers(x3f, name, dim0, dim1, 0, MatrixType::Uint) {
        Some(MatrixData::Uint(v)) => Some(
            if v@.len() > 0 {
                v@
            } else {
                seq![0u32, 0u32, 0u32, 0u32]
            },
        ),
        _ => None,
    }
}

/// Four unsigned numbers of the metadata.
pub fn get_camf_four(x3f: &X3f<'_>, name: &[u8], dim0: u32, dim1: u32) -> (r: Option<[u32; 4]>)
    requires
        x3f.inv(),
        dim0 == 4 && dim1 == 0 || dim0 == 2 && dim1 == 2,
    ensures
        match r {
            Some(v) => camf_four(*x3f, name@, dim0, dim1) == Some(v@),
            None => camf_four(*x3f, name@, dim0, dim1) is None,
        },
{
    match x3f_get_camf_matrix(x3f, name, dim0, dim1, 0, MatrixType::Uint) {
        Some(MatrixData::Uint(v)) => {
            proof {
                lemma_four(camf_matrix(*x3f, name@)->0, dim0, dim1);
            }
            if v.len() > 0 {
                let out: [u32; 4] = [v[0], v[1], v[2], v[3]];
                assert(out@ =~= v@);
                Some(out)
            } else {
                let out: [u32; 4] = [0, 0, 0, 0];
                assert(out@ =~= seq![0u32, 0u32, 0u32, 0u32]);
                Some(out)
            }
        },
        _ => None,
    }
}

/// The area of the sensor that the stored image covers.
pub open spec fn keep_area(x3f: X3f) -> Option<Seq<u32>> {
    camf_four(x3f, "KeepImageArea".spec_bytes(), 4, 0)
}

pub open spec fn larger(a: u32, b: u32) -> u32 {
    if a < b {
        b
    } else {
        a
    }
}

pub open spec fn smaller(a: u32, b: u32) -> u32 {
    if a < b {
        a
    } else {
        b
    }
}

/// A sensor coordinate, clipped to the range that is stored, as a coordinate of
/// an image of `size` pixels. With `rescale` the image covers the whole range at
/// its own resolution.
pub open spec fn image_coord(at: u32, first: u32, last: u32, size: u32, rescale: bool) -> int {
    let clipped = smaller(larger(at, first), last) - first;
    if rescale {
        clipped * size / (last - first + 1)
    } else {
        clipped
    }
}

/// A rectangle of the sensor as a rectangle of an image of this size, if they
/// have pixels in common and, without rescaling, the image is large enough.
pub open spec fn rect_to_image(
    x3f: X3f,
    columns: u32,
    rows: u32,
    rescale: bool,
    rect: Seq<u32>,
) -> Option<Seq<u32>> {
    match keep_area(x3f) {
        None => None,
        Some(k) => if !meets(rect, k) {
            None
        } else if !rescale && (k[2] - k[0] + 1 > columns || k[3] - k[1] + 1 > rows) {
            None
        } else {
            Some(
                seq![
                    image_coord(rect[0], k[0], k[2], columns, rescale) as u32,
                    image_coord(rect[1], k[1], k[3], rows, rescale) as u32,
                    image_coord(rect[2], k[0], k[2], columns, rescale) as u32,
                    image_coord(rect[3], k[1], k[3], rows, rescale) as u32,
                ],
            )
        },
    }
}

/// Whether a rectangle has pixels in common with the area that is stored.
pub open spec fn meets(rect: Seq<u32>, keep: Seq<u32>) -> bool {
    rect[0] <= keep[2] && rect[1] <= keep[3] && rect[2] >= keep[0] && rect[3] >= keep[1]
}

/// Whether a clipped sensor coordinate times the size of an image has 32 bits.
pub open spec fn coord_ok(at: u32, first: u32, last: u32, size: u32) -> bool {
    (smaller(larger(at, first), last) - first) * size <= u32::MAX
}

/// Whether the arithmetic by which a rectangle is brought into the frame of an
/// image stays within 32 bits: the extent of the stored area and, with `rescale`,
/// the coordinates of a rectangle that meets it.
pub open spec fn transform_ok(
    x3f: X3f,
    columns: u32,
    rows: u32,
    rescale: bool,
    rect: Seq<u32>,
) -> bool {
    match keep_area(x3f) {
        None => true,
        Some(k) => {
            &&& k[0] <= k[2]
            &&& k[1] <= k[3]
            &&& k[2] - k[0] < u32::MAX
            &&& k[3] - k[1] < u32::MAX
            &&& rescale && meets(rect, k) ==> {
                &&& coord_ok(rect[0], k[0], k[2], columns)
                &&& coord_ok(rect[1], k[1], k[3], rows)
                &&& coord_ok(rect[2], k[0], k[2], columns)
                &&& coord_ok(rect[3], k[1], k[3], rows)
            }
        },
    }
}

/// Whether the arithmetic by which a rectangle is brought into the frame of an
/// image stays within 32 bits.
pub fn check_transform(
    x3f: &X3f<'_>,
    columns: u32,
    rows: u32,
    rescale: bool,
    rect: &[u32; 4],
) -> (r: bool)
    requires
        x3f.inv(),
    ensures
        r == transform_ok(*x3f, columns, rows, rescale, rect@),
{
    match get_camf_four(x3f, "KeepImageArea".as_bytes(), 4, 0) {
        None => true,
        Some(k) => {
            if k[0] > k[2] || k[1] > k[3] || k[2] - k[0] == u32::MAX || k[3] - k[1] == u32::MAX {
                return false;
            }
            if !rescale || rect[0] > k[2] || rect[1] > k[3] || rect[2] < k[0] || rect[3] < k[1] {
                return true;
            }
            (clip(rect[0], k[0], k[2]) - k[0]).checked_mul(columns).is_some() && (clip(
                rect[1],
                k[1],
                k[3],
            ) - k[1]).checked_mul(rows).is_some() && (clip(rect[2], k[0], k[2])
                - k[0]).checked_mul(columns).is_some() && (clip(rect[3], k[1], k[3])
                - k[1]).checked_mul(rows).is_some()
        },
    }
}

/// Rescaling keeps the order of coordinates and their range.
proof fn lemma_rescale(a: int, b: int, last: int, size: int)
    requires
        0 <= a <= b <= last,
        0 <= size,
    ensures
        0 <= a * size / (last + 1) <= b * size / (last + 1),
        b * size <= last * size,
        0 <= a * size,
        size > 0 ==> b * size / (last + 1) < size,
{
    let n = last + 1;
    assert(0 <= a * size <= b * size <= last * size) by (nonlinear_arith)
        requires
            0 <= a <= b <= last,
            0 <= size,
    ;
    vstd::arithmetic::div_mod::lemma_div_is_ordered(a * size, b * size, n);
    assert(a * size / n >= 0) by (nonlinear_arith)
        requires
            a * size >= 0,
            n > 0,
    ;
    if size > 0 {
        assert(b * size < size * n) by (nonlinear_arith)
            requires
                0 <= b < n,
                size > 0,
        ;
        assert(b * size / n < size) by (nonlinear_arith)
            requires
                0 <= b * size < size * n,
                n > 0,
        ;
    }
}

/// A rectangle of the sensor that is not reversed can be cut out of any image that
/// has pixels.
pub proof fn law_rectangles_lie_in_the_image(
    x3f: X3f,
    columns: u32,
    rows: u32,
    rescale: bool,
    rect: Seq<u32>,
)
    requires
        transform_ok(x3f, columns, rows, rescale, rect),
        rect[0] <= rect[2],
        rect[1] <= rect[3],
        columns > 0,
        rows > 0,
    ensures
        crop_ok(x3f, columns, rows, rescale, Some(rect)),
{
    if rect_to_image(x3f, columns, rows, rescale, rect) is Some {
        let k = keep_area(x3f)->0;
        let x0 = smaller(larger(rect[0], k[0]), k[2]) - k[0];
        let x1 = smaller(larger(rect[2], k[0]), k[2]) - k[0];
        let y0 = smaller(larger(rect[1], k[1]), k[3]) - k[1];
        let y1 = smaller(larger(rect[3], k[1]), k[3]) - k[1];
        lemma_rescale(x0, x1, k[2] - k[0], columns as int);
        lemma_rescale(y0, y1, k[3] - k[1], rows as int);
    }
}

/// Brings a rectangle of the sensor into the frame of an image of this size.
pub fn x3f_transform_rect_to_keep_image(
    x3f: &X3f<'_>,
    columns: u32,
    rows: u32,
    rescale: bool,
    rect: &[u32; 4],
) -> (r: Option<[u32; 4]>)
    requires
        x3f.inv(),
        transform_ok(*x3f, columns, rows, rescale, rect@),
    ensures
        match r {
            Some(v) => rect_to_image(*x3f, columns, rows, rescale, rect@) == Some(v@),
            None => rect_to_image(*x3f, columns, rows, rescale, rect@) is None,
        },
{
    let k: [u32; 4] = match get_camf_four(x3f, "KeepImageArea".as_bytes(), 4, 0) {
        Some(k) => k,
        None => {
            return None;
        },
    };
    let keep_cols: u32 = k[2] - k[0] + 1;
    let keep_rows: u32 = k[3] - k[1] + 1;
    if rect[0] > k[2] || rect[1] > k[3] || rect[2] < k[0] || rect[3] < k[1] {
        return None;
    }
    if !rescale && (keep_cols > columns || keep_rows > rows) {
        return None;
    }
    let x0: u32 = clip(rect[0], k[0], k[2]) - k[0];
    let y0: u32 = clip(rect[1], k[1], k[3]) - k[1];
    let x1: u32 = clip(rect[2], k[0], k[2]) - k[0];
    let y1: u32 = clip(rect[3], k[1], k[3]) - k[1];
    let out: [u32; 4] = if rescale {
        proof {
            lemma_rescale(x0 as int, x0 as int, k[2] - k[0], columns as int);
            lemma_rescale(x1 as int, x1 as int, k[2] - k[0], columns as int);
            lemma_rescale(y0 as int, y0 as int, k[3] - k[1], rows as int);
            lemma_rescale(y1 as int, y1 as int, k[3] - k[1], rows as int);
        }
        [
            x0 * columns / keep_cols,
            y0 * rows / keep_rows,
            x1 * columns / keep_cols,
            y1 * rows / keep_rows,
        ]
    } else {
        [x0, y0, x1, y1]
    };
    proof {
        assert(out@ =~= rect_to_image(*x3f, columns, rows, rescale, rect@)->0);
    }
    Some(out)
}

/// A value, brought into a range.
fn clip(at: u32, first: u32, last: u32) -> (r: u32)
    requires
        first <= last,
    ensures
        r == smaller(larger(at, first), last),
        first <= r <= last,
{
    if at < first {
        first
    } else if at < last {
        at
    } else {
        last
    }
}

/// A rectangle that the metadata name, in the frame of an image of this size.
pub open spec fn camf_rect(x3f: X3f, name: Seq<u8>, columns: u32, rows: u32, rescale: bool) -> Option<
    Seq<u32>,
> {
    match camf_four(x3f, name, 4, 0) {
        Some(rect) => rect_to_image(x3f, columns, rows, rescale, rect),
        None => None,
    }
}

/// Whether a rectangle of the sensor, if there is one, can be cut out of an image
/// of this size, or has no pixels in common with it.
pub open spec fn crop_ok(
    x3f: X3f,
    columns: u32,
    rows: u32,
    rescale: bool,
    rect: Option<Seq<u32>>,
) -> bool {
    match rect {
        Some(rect) => {
            &&& transform_ok(x3f, columns, rows, rescale, rect)
            &&& rect_to_image(x3f, columns, rows, rescale, rect) matches Some(coord) ==> rect_fits(
                coord,
                columns,
                rows,
            )
        },
        None => true,
    }
}

/// Whether a rectangle of the sensor can be cut out of an image of this size, or
/// has no pixels in common with it.
fn check_crop(x3f: &X3f<'_>, columns: u32, rows: u32, rescale: bool, rect: &[u32; 4]) -> (r: bool)
    requires
        x3f.inv(),
    ensures
        r == crop_ok(*x3f, columns, rows, rescale, Some(rect@)),
{
    if !check_transform(x3f, columns, rows, rescale, rect) {
        return false;
    }
    match x3f_transform_rect_to_keep_image(x3f, columns, rows, rescale, rect) {
        Some(coord) => coord[0] <= coord[2] && coord[1] <= coord[3] && coord[2] < columns
            && coord[3] < rows,
        None => true,
    }
}

/// Whether a rectangle that the metadata name can be cut out of an image of this
/// size.
pub fn check_camf_rect(x3f: &X3f<'_>, name: &[u8], columns: u32, rows: u32, rescale: bool) -> (r:
    bool)
    requires
        x3f.inv(),
    ensures
        r == crop_ok(*x3f, columns, rows, rescale, camf_four(*x3f, name@, 4, 0)),
{
    match get_camf_four(x3f, name, 4, 0) {
        Some(rect) => check_crop(x3f, columns, rows, rescale, &rect),
        None => true,
    }
}

/// A rectangle that the metadata name, in the frame of an image of this size.
pub fn x3f_get_camf_rect(x3f: &X3f<'_>, name: &[u8], columns: u32, rows: u32, rescale: bool) -> (r:
    Option<[u32; 4]>)
    requires
        x3f.inv(),
        camf_four(*x3f, name@, 4, 0) matches Some(rect) ==> transform_ok(
            *x3f,
            columns,
            rows,
            rescale,
            rect,
        ),
    ensures
        match r {
            Some(v) => camf_rect(*x3f, name@, columns, rows, rescale) == Some(v@),
            None => camf_rect(*x3f, name@, columns, rows, rescale) is None,
        },
{
    match get_camf_four(x3f, name, 4, 0) {
        Some(rect) => x3f_transform_rect_to_keep_image(x3f, columns, rows, rescale, &rect),
        None => None,
    }
}

/// The shielded columns on one side of the sensor, over all of its rows.
pub open spec fn column_rect(x3f: X3f, which_side: ColSide) -> Option<Seq<u32>> {
    match camf_four(x3f, "DarkShieldColRange".spec_bytes(), 2, 2) {
        Some(c) => match which_side {
            ColSide::Left => Some(seq![c[0], 0u32, c[1], u32::MAX]),
            ColSide::Right => Some(seq![c[2], 0u32, c[3], u32::MAX]),
            ColSide::Wrong => None,
        },
        None => None,
    }
}

/// The shielded columns on one side of the sensor, over all of its rows.
fn get_column_rect(x3f: &X3f<'_>, which_side: ColSide) -> (r: Option<[u32; 4]>)
    requires
        x3f.inv(),
    ensures
        match r {
            Some(v) => column_rect(*x3f, which_side) == Some(v@),
            None => column_rect(*x3f, which_side) is None,
        },
{
    match get_camf_four(x3f, "DarkShieldColRange".as_bytes(), 2, 2) {
        Some(c) => {
            let out: [u32; 4] = match which_side {
                ColSide::Left => [c[0], 0, c[1], u32::MAX],
                ColSide::Right => [c[2], 0, c[3], u32::MAX],
                ColSide::Wrong => {
                    return None;
                },
            };
            assert(out@ =~= column_rect(*x3f, which_side)->0);
            Some(out)
        },
        None => None,
    }
}

/// Whether the shielded columns of one side can be cut out of an image of this
/// size.
pub fn check_column_rect(
    x3f: &X3f<'_>,
    which_side: ColSide,
    columns: u32,
    rows: u32,
    rescale: bool,
) -> (r: bool)
    requires
        x3f.inv(),
    ensures
        r == crop_ok(*x3f, columns, rows, rescale, column_rect(*x3f, which_side)),
{
    match get_column_rect(x3f, which_side) {
        Some(rect) => check_crop(x3f, columns, rows, rescale, &rect),
        None => true,
    }
}

/// The window of an image that a rectangle of the sensor cuts out.
pub open spec fn crop_to(x3f: X3f, image: Window, rescale: bool, rect: Option<Seq<u32>>) -> Option<
    Window,
> {
    match rect {
        Some(rect) => match rect_to_image(x3f, image.columns, image.rows, rescale, rect) {
            Some(coord) => Some(crop_of(coord, image)),
            None => None,
        },
        None => None,
    }
}

/// Cuts the shielded columns of one side out of an image.
pub fn x3f_crop_area_column(
    x3f: &X3f<'_>,
    which_side: ColSide,
    image: &Window,
    len: usize,
    rescale: bool,
) -> (r: Option<Window>)
    requires
        x3f.inv(),
        image.inside(len as int),
        crop_ok(*x3f, image.columns, image.rows, rescale, column_rect(*x3f, which_side)),
    ensures
        r == crop_to(*x3f, *image, rescale, column_rect(*x3f, which_side)),
        r is Some ==> r->0.inside(len as int) && r->0.channels == image.channels && 0 < r->0.rows
            <= image.rows && 0 < r->0.columns <= image.columns,
{
    let rect: [u32; 4] = match get_column_rect(x3f, which_side) {
        Some(rect) => rect,
        None => {
            return None;
        },
    };
    match x3f_transform_rect_to_keep_image(x3f, image.columns, image.rows, rescale, &rect) {
        Some(coord) => x3f_crop_area(&coord, image, len),
        None => None,
    }
}

/// Cuts a rectangle that the metadata name out of an image.
pub fn x3f_crop_area_camf(
    x3f: &X3f<'_>,
    name: &[u8],
    image: &Window,
    len: usize,
    rescale: bool,
) -> (r: Option<Window>)
    requires
        x3f.inv(),
        image.inside(len as int),
        crop_ok(*x3f, image.columns, image.rows, rescale, camf_four(*x3f, name@, 4, 0)),
    ensures
        r == crop_to(*x3f, *image, rescale, camf_four(*x3f, name@, 4, 0)),
        r is Some ==> r->0.inside(len as int) && r->0.channels == image.channels && 0 < r->0.rows
            <= image.rows && 0 < r->0.columns <= image.columns,
{
    match x3f_get_camf_rect(x3f, name, image.columns, image.rows, rescale) {
        Some(coord) => x3f_crop_area(&coord, image, len),
        None => None,
    }
}

/// Cuts a rectangle that the metadata name out of a raster of bytes.
pub fn x3f_crop_area8_camf(
    x3f: &X3f<'_>,
    name: &[u8],
    image: &Window,
    len: usize,
    rescale: bool,
) -> (r: Option<Window>)
    requires
        x3f.inv(),
        image.inside(len as int),
        crop_ok(*x3f, image.columns, image.rows, rescale, camf_four(*x3f, name@, 4, 0)),
    ensures
        r == crop_to(*x3f, *image, rescale, camf_four(*x3f, name@, 4, 0)),
        r is Some ==> r->0.inside(len as int) && r->0.channels == image.channels && 0 < r->0.rows
            <= image.rows && 0 < r->0.columns <= image.columns,
{
    x3f_crop_area_camf(x3f, name, image, len, rescale)
}

/// Without rescaling, a rectangle of the sensor is brought into the frame of an image by
/// cutting off what is not stored: it has pixels in common with the stored area if and
/// only if there is a result, and then a stored pixel lies in the rectangle if and only if
/// it lies, counted from the corner of the stored area, in the result.
pub proof fn law_unscaled_rectangles_keep_their_pixels(
    x3f: X3f,
    columns: u32,
    rows: u32,
    rect: Seq<u32>,
    k: Seq<u32>,
    x: int,
    y: int,
)
    requires
        keep_area(x3f) == Some(k),
        k[0] <= k[2],
        k[1] <= k[3],
        k[2] - k[0] < columns,
        k[3] - k[1] < rows,
        rect[0] <= rect[2],
        rect[1] <= rect[3],
        k[0] <= x <= k[2],
        k[1] <= y <= k[3],
    ensures
        match rect_to_image(x3f, columns, rows, false, rect) {
            Some(out) => {
                &&& out.len() == 4
                &&& rect[0] <= x <= rect[2] && rect[1] <= y <= rect[3] <==> out[0] <= x - k[0]
                    <= out[2] && out[1] <= y - k[1] <= out[3]
            },
            None => !(rect[0] <= x <= rect[2] && rect[1] <= y <= rect[3]),
        },
        rect_to_image(x3f, columns, rows, false, rect) is Some <==> exists|c: int, r: int|
            is_in(rect, c, r) && is_in(k, c, r),
{
    if meets(rect, k) {
        let c = larger(rect[0], k[0]) as int;
        let r = larger(rect[1], k[1]) as int;
        assert(is_in(rect, c, r) && is_in(k, c, r));
    }
}

/// Whether a pixel lies in a rectangle.
pub open spec fn is_in(rect: Seq<u32>, x: int, y: int) -> bool {
    rect[0] <= x <= rect[2] && rect[1] <= y <= rect[3]
}

/// With rescaling, the stored area is stretched over the whole image: a coordinate of a
/// rectangle, cut off at the edge of the stored area, comes to stand in the image as far
/// from its edge as it does in the stored area from that one's, in proportion, rounded
/// down.
pub proof fn law_rescaled_rectangles_stay_in_proportion(
    x3f: X3f,
    columns: u32,
    rows: u32,
    rect: Seq<u32>,
    k: Seq<u32>,
    i: int,
)
    requires
        transform_ok(x3f, columns, rows, true, rect),
        keep_area(x3f) == Some(k),
        0 <= i < 4,
        rect_to_image(x3f, columns, rows, true, rect) is Some,
    ensures
        ({
            let out = rect_to_image(x3f, columns, rows, true, rect)->0;
            let (first, last, size) = if i % 2 == 0 {
                (k[0] as int, k[2] as int, columns as int)
            } else {
                (k[1] as int, k[3] as int, rows as int)
            };
            let at = if rect[i] < first {
                0
            } else if rect[i] > last {
                last - first
            } else {
                rect[i] - first
            };
            let span = last - first + 1;
            out[i] * span <= at * size < (out[i] + 1) * span
        }),
{
    let (first, last, size) = if i % 2 == 0 {
        (k[0] as int, k[2] as int, columns as int)
    } else {
        (k[1] as int, k[3] as int, rows as int)
    };
    let at = if rect[i] < first {
        0
    } else if rect[i] > last {
        last - first
    } else {
        rect[i] - first
    };
    let span = last - first + 1;
    lemma_rescale(at, at, last - first, size);
    vstd::arithmetic::div_mod::lemma_fundamental_div_mod(at * size, span);
    vstd::arithmetic::div_mod::lemma_mod_bound(at * size, span);
    let q = at * size / span;
    assert(q * span == span * q && (q + 1) * span == span * q + span) by (nonlinear_arith);
    assert(q <= at * size) by (nonlinear_arith)
        requires
            q * span <= at * size,
            span >= 1,
            q >= 0,
    ;
    let out = rect_to_image(x3f, columns, rows, true, rect)->0;
    assert(coord_ok(rect[0], k[0], k[2], columns) && coord_ok(rect[1], k[1], k[3], rows));
    assert(coord_ok(rect[2], k[0], k[2], columns) && coord_ok(rect[3], k[1], k[3], rows));
    assert(i == 0 || i == 1 || i == 2 || i == 3);
    assert(out[i] == q);
}

/// A crop has as many columns and rows as its rectangle, and the pixels of the image from
/// the first column and row of the rectangle on.
pub proof fn law_crops_are_rectangles(
    coord: Seq<u32>,
    image: Window,
    len: int,
    row: int,
    column: int,
    channel: int,
)
    requires
        coord.len() == 4,
        image.inside(len),
        len <= usize::MAX,
        rect_fits(coord, image.columns, image.rows),
        0 <= channel < image.channels,
        coord[1] <= row <= coord[3],
        coord[0] <= column <= coord[2],
    ensures
        ({
            let crop = crop_of(coord, image);
            &&& crop.rows == coord[3] - coord[1] + 1
            &&& crop.columns == coord[2] - coord[0] + 1
            &&& crop.channels == image.channels
            &&& crop.offset + (row - coord[1]) * crop.row_stride + (column - coord[0])
                * crop.channels + channel == image.offset + row * image.row_stride + column
                * image.channels + channel
        }),
{
    law_crop_is_a_view(coord, image, len);
    let crop = crop_of(coord, image);
    assert(crop.in_range(row - coord[1], column - coord[0], channel));
    assert(crop.index(row - coord[1], column - coord[0], channel) == image.index(
        row - coord[1] + coord[1],
        column - coord[0] + coord[0],
        channel,
    ));
}

/// The shielded columns are those that the metadata state, the left ones first, over all
/// rows of the sensor.
pub proof fn law_shielded_columns_reach_over_all_rows(x3f: X3f, c: Seq<u32>, x: int, y: int)
    requires
        camf_four(x3f, "DarkShieldColRange".spec_bytes(), 2, 2) == Some(c),
        0 <= y <= u32::MAX,
    ensures
        column_rect(x3f, ColSide::Left) matches Some(rect) && (is_in(rect, x, y) <==> c[0] <= x
            <= c[1]),
        column_rect(x3f, ColSide::Right) matches Some(rect) && (is_in(rect, x, y) <==> c[2] <= x
            <= c[3]),
{
}

} // verus!
