//! In what steps an image is made, and which part of it is handed out.

use crate::area::Window;
use crate::image::{
    camf_four, crop_of, crop_ok, crop_to, law_crops_are_rectangles, rect_fits, x3f_crop_area,
    x3f_crop_area_camf,
};
use crate::io::X3f;
use vstd::prelude::*;
use vstd::string::StringSliceAdditionalSpecFns;

verus! {

/// The colour space that an image is wanted in.
#[derive(Clone, Copy, Debug, PartialEq, Eq, Structural)]
pub enum ColorEncoding {
    /// That of the camera.
    Native,
    Srgb,
    Argb,
    Pprgb,
    /// The raw samples.
    Unprocessed,
    /// The raw samples of a Quattro sensor's top layer.
    Qtop,
}

/// The part of an image that the camera shows as the picture: the area that the
/// metadata name, or all of it.
pub open spec fn active_of(x3f: X3f, w: Window, rescale: bool) -> Window {
    match crop_to(x3f, w, rescale, camf_four(x3f, "ActiveImageArea".spec_bytes(), 4, 0)) {
        Some(crop) => crop,
        None => w,
    }
}

/// Whether the active area, if the metadata name it, can be found in an image of
/// this size.
pub open spec fn active_ok(x3f: X3f, w: Window, rescale: bool) -> bool {
    crop_ok(
        x3f,
        w.columns,
        w.rows,
        rescale,
        camf_four(x3f, "ActiveImageArea".spec_bytes(), 4, 0),
    )
}

/// The part of an image that the camera shows as the picture.
pub fn active_window(x3f: &X3f<'_>, w: &Window, len: usize, rescale: bool) -> (r: Window)
    requires
        x3f.inv(),
        w.inside(len as int),
        active_ok(*x3f, *w, rescale),
    ensures
        r == active_of(*x3f, *w, rescale),
        r.inside(len as int),
        r.channels == w.channels,
{
    match x3f_crop_area_camf(x3f, "ActiveImageArea".as_bytes(), w, len, rescale) {
        Some(crop) => crop,
        None => *w,
    }
}

/// The part of an image that is handed out: the active area where a crop is
/// wanted, or all of it.
pub fn output_window(x3f: &X3f<'_>, w: &Window, len: usize, rescale: bool, crop: bool) -> (r: Window)
    requires
        x3f.inv(),
        w.inside(len as int),
        crop ==> active_ok(*x3f, *w, rescale),
    ensures
        r == (if crop {
            active_of(*x3f, *w, rescale)
        } else {
            *w
        }),
        r.inside(len as int),
        r.channels == w.channels,
{
    if crop {
        active_window(x3f, w, len, rescale)
    } else {
        *w
    }
}

/// The part of the top layer that covers an image of half its resolution.
pub open spec fn cover_of(image: Window, top: Window) -> Option<Window> {
    let coord = seq![0u32, 0u32, (2 * image.columns - 1) as u32, (2 * image.rows - 1) as u32];
    if rect_fits(coord, top.columns, top.rows) {
        Some(crop_of(coord, top))
    } else {
        None
    }
}

/// The part of the top layer that covers an image of half its resolution, if the
/// top layer is large enough.
pub fn quattro_cover(image: &Window, top: &Window, top_len: usize) -> (r: Option<Window>)
    requires
        top.inside(top_len as int),
        0 < image.columns <= 0x7fff_ffff,
        0 < image.rows <= 0x7fff_ffff,
    ensures
        r == cover_of(*image, *top),
        r is Some ==> {
            &&& r->0.inside(top_len as int)
            &&& r->0.rows == 2 * image.rows
            &&& r->0.columns == 2 * image.columns
            &&& r->0.channels == top.channels
        },
{
    let coord: [u32; 4] = [0, 0, 2 * image.columns - 1, 2 * image.rows - 1];
    assert(coord@ =~= seq![
        0u32,
        0u32,
        (2 * image.columns - 1) as u32,
        (2 * image.rows - 1) as u32,
    ]);
    x3f_crop_area(&coord, top, top_len)
}

/// A quarter of a size: the nearest number, and of two that are as near the even
/// one.
pub open spec fn quarter_of(n: nat) -> nat {
    let q = n / 4;
    if n % 4 == 3 || n % 4 == 2 && q % 2 == 1 {
        q + 1
    } else {
        q
    }
}

/// A quarter of a size.
pub fn quarter_size(n: usize) -> (r: usize)
    ensures
        r == quarter_of(n as nat),
{
    let q: usize = n / 4;
    if n % 4 == 3 || n % 4 == 2 && q % 2 == 1 {
        q + 1
    } else {
        q
    }
}

/// What is wanted of an image.
pub struct ImageRequest {
    pub encoding: ColorEncoding,
    pub denoise: bool,
    /// Whether the image is for a logarithmic film scan.
    pub cineon: bool,
    /// Whether the levels of the image are wanted too.
    pub levels: bool,
}

/// What there is to make an image from.
pub struct ImageSources {
    pub raw: bool,
    pub top: bool,
}

/// The steps in which an image is made.
#[derive(Clone, Copy, Debug, PartialEq, Eq, Structural)]
pub enum ImageStep {
    /// Hand out the raw samples of the top layer.
    HandOutTop,
    /// Hand out the raw samples.
    HandOutRaw,
    /// Bring the raw samples to the intermediate range.
    Preprocess,
    /// Enlarge the lower layers of a Quattro sensor.
    Expand,
    /// Reduce the noise.
    Denoise,
    /// Bring overexposed samples into range.
    ClipHighlights,
    /// Bring the image to its colour space.
    Convert,
    /// The image is made.
    Finish,
    /// There is no image.
    Fail,
}

/// The first step.
pub fn first_step(request: &ImageRequest, sources: &ImageSources) -> (r: ImageStep)
    ensures
        match request.encoding {
            ColorEncoding::Qtop => r == (if sources.top {
                ImageStep::HandOutTop
            } else {
                ImageStep::Fail
            }),
            ColorEncoding::Unprocessed => r == (if sources.raw {
                ImageStep::HandOutRaw
            } else {
                ImageStep::Fail
            }),
            _ => r == (if sources.raw {
                ImageStep::Preprocess
            } else {
                ImageStep::Fail
            }),
        },
{
    match request.encoding {
        ColorEncoding::Qtop => if sources.top {
            ImageStep::HandOutTop
        } else {
            ImageStep::Fail
        },
        ColorEncoding::Unprocessed => if sources.raw {
            ImageStep::HandOutRaw
        } else {
            ImageStep::Fail
        },
        _ => if sources.raw {
            ImageStep::Preprocess
        } else {
            ImageStep::Fail
        },
    }
}

/// Whether all samples are there after a step: the image is expanded or was not
/// to be, and its noise is reduced if that is wanted.
pub open spec fn samples_ready(request: ImageRequest, step: ImageStep, ok: bool) -> bool {
    match step {
        ImageStep::Expand => ok || !request.denoise,
        ImageStep::Denoise => ok,
        _ => false,
    }
}

/// Whether a step that fails leaves no image. Where there is nothing to expand
/// the image is made without that step.
pub open spec fn is_fatal(request: ImageRequest, step: ImageStep) -> bool {
    match step {
        ImageStep::HandOutTop | ImageStep::HandOutRaw => request.levels,
        ImageStep::Preprocess | ImageStep::Denoise | ImageStep::Convert => true,
        _ => false,
    }
}

/// The step that follows another one. `ok` says whether that one succeeded, and
/// `quattro` whether the image is an expanded one. Raw samples have no levels.
pub open spec fn step_after(
    request: ImageRequest,
    quattro: bool,
    step: ImageStep,
    ok: bool,
) -> ImageStep {
    if step == ImageStep::HandOutTop || step == ImageStep::HandOutRaw {
        if request.levels {
            ImageStep::Fail
        } else {
            ImageStep::Finish
        }
    } else if !ok && is_fatal(request, step) {
        ImageStep::Fail
    } else if step == ImageStep::Preprocess {
        ImageStep::Expand
    } else if samples_ready(request, step, ok) {
        if request.encoding != ColorEncoding::Native {
            ImageStep::Convert
        } else if quattro || request.cineon {
            ImageStep::Finish
        } else {
            ImageStep::ClipHighlights
        }
    } else if step == ImageStep::Expand {
        ImageStep::Denoise
    } else if step == ImageStep::Fail {
        ImageStep::Fail
    } else {
        ImageStep::Finish
    }
}

/// The step that follows another one.
pub fn next_step(request: &ImageRequest, quattro: bool, step: ImageStep, ok: bool) -> (r: ImageStep)
    ensures
        r == step_after(*request, quattro, step, ok),
{
    let ready: bool = match step {
        ImageStep::HandOutTop | ImageStep::HandOutRaw => {
            return if request.levels {
                ImageStep::Fail
            } else {
                ImageStep::Finish
            };
        },
        ImageStep::Preprocess => {
            return if ok {
                ImageStep::Expand
            } else {
                ImageStep::Fail
            };
        },
        ImageStep::Expand => ok || !request.denoise,
        ImageStep::Denoise => {
            if !ok {
                return ImageStep::Fail;
            }
            true
        },
        ImageStep::Convert => {
            return if ok {
                ImageStep::Finish
            } else {
                ImageStep::Fail
            };
        },
        ImageStep::ClipHighlights | ImageStep::Finish => {
            return ImageStep::Finish;
        },
        ImageStep::Fail => {
            return ImageStep::Fail;
        },
    };
    if !ready {
        return ImageStep::Denoise;
    }
    if request.encoding != ColorEncoding::Native {
        ImageStep::Convert
    } else if quattro || request.cineon {
        ImageStep::Finish
    } else {
        ImageStep::ClipHighlights
    }
}

/// What a user asks of the recovery of overexposed samples.
pub struct RecoveryRequest {
    /// Whether the image is for a logarithmic film scan.
    pub cineon: bool,
    /// Whether the table of colours is not to be used.
    pub no_chroma_lut: bool,
    /// Whether pixels among overexposed ones are to be repaired.
    pub repair_pix: bool,
}

/// Which passes of the recovery are made.
pub struct RecoveryPasses {
    pub chroma_lut: bool,
    pub repair_pix: bool,
}

/// Which passes of the recovery are made when an image is converted. A film scan
/// keeps its colours for the grading that follows: it has none of them.
pub fn recovery_passes(request: &RecoveryRequest) -> (r: RecoveryPasses)
    ensures
        r.chroma_lut <==> !request.cineon && !request.no_chroma_lut,
        r.repair_pix <==> !request.cineon && request.repair_pix,
{
    RecoveryPasses {
        chroma_lut: !request.cineon && !request.no_chroma_lut,
        repair_pix: !request.cineon && request.repair_pix,
    }
}

/// How many steps can still follow.
pub open spec fn steps_left(step: ImageStep) -> nat {
    match step {
        ImageStep::Finish | ImageStep::Fail => 0,
        ImageStep::ClipHighlights | ImageStep::Convert => 1,
        ImageStep::HandOutTop | ImageStep::HandOutRaw => 1,
        ImageStep::Denoise => 2,
        ImageStep::Expand => 3,
        ImageStep::Preprocess => 4,
    }
}

/// Every step brings the image nearer to its end.
pub proof fn law_steps_come_to_an_end(
    request: ImageRequest,
    quattro: bool,
    step: ImageStep,
    ok: bool,
)
    requires
        steps_left(step) > 0,
    ensures
        steps_left(step_after(request, quattro, step, ok)) < steps_left(step),
{
}

/// Overexposed samples are brought into range only in images in the camera's own
/// colour space, neither expanded nor for a film scan; all others are converted
/// or handed out as they are.
pub proof fn law_only_camera_images_are_clipped(
    request: ImageRequest,
    quattro: bool,
    step: ImageStep,
    ok: bool,
)
    requires
        step_after(request, quattro, step, ok) == ImageStep::ClipHighlights,
    ensures
        request.encoding == ColorEncoding::Native,
        !quattro,
        !request.cineon,
{
}

/// A quarter of a size is the nearest whole number to it, and of two that are as near the
/// even one.
pub proof fn law_a_quarter_is_the_nearest(n: nat)
    ensures
        -2 <= 4 * quarter_of(n) - n <= 2,
        4 * quarter_of(n) - n == 2 || 4 * quarter_of(n) - n == -2 ==> quarter_of(n) % 2 == 0,
{
}

/// The cover of an image has twice its rows and columns, and the samples of the top layer
/// from its first row and column on.
pub proof fn law_the_cover_starts_at_the_corner(
    image: Window,
    top: Window,
    len: int,
    row: int,
    column: int,
)
    requires
        0 < image.columns <= 0x7fff_ffff,
        0 < image.rows <= 0x7fff_ffff,
        top.inside(len),
        len <= usize::MAX,
        top.channels == 1,
        0 <= row < 2 * image.rows,
        0 <= column < 2 * image.columns,
    ensures
        cover_of(image, top) is Some <==> 2 * image.columns <= top.columns && 2 * image.rows
            <= top.rows,
        cover_of(image, top) matches Some(w) ==> {
            &&& w.rows == 2 * image.rows
            &&& w.columns == 2 * image.columns
            &&& w.offset + row * w.row_stride + column == top.offset + row * top.row_stride + column
        },
{
    let coord = seq![0u32, 0u32, (2 * image.columns - 1) as u32, (2 * image.rows - 1) as u32];
    assert(coord[0] == 0 && coord[1] == 0);
    assert(top.channels * 0 == 0 && top.row_stride * 0 == 0);
    if rect_fits(coord, top.columns, top.rows) {
        law_crops_are_rectangles(coord, top, len, 0, 0, 0);
    }
}

/// What an image goes through: it is preprocessed and then expanded; its noise is reduced
/// where that is wanted and it is not expanded; and it is converted unless it is wanted in
/// the colour space of the camera. Raw samples are handed out as they are, and a step
/// without which there is no image ends the work.
pub proof fn law_images_go_through_their_steps(
    request: ImageRequest,
    quattro: bool,
    step: ImageStep,
    ok: bool,
)
    ensures
        ({
            let next = step_after(request, quattro, step, ok);
            let processed = step == ImageStep::Expand && (ok || !request.denoise) || step
                == ImageStep::Denoise && ok;
            &&& step == ImageStep::Preprocess ==> next == (if ok {
                ImageStep::Expand
            } else {
                ImageStep::Fail
            })
            &&& next == ImageStep::Denoise <==> step == ImageStep::Expand && !ok && request.denoise
            &&& next == ImageStep::Convert <==> processed && request.encoding
                != ColorEncoding::Native
            &&& next == ImageStep::Fail <==> step == ImageStep::Fail || !ok && (step
                == ImageStep::Preprocess || step == ImageStep::Denoise || step
                == ImageStep::Convert) || request.levels && (step == ImageStep::HandOutTop || step
                == ImageStep::HandOutRaw)
        }),
{
}

} // verus!
