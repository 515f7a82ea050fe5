# x3f-sys

A library for X3F files, the raw format of cameras with Foveon sensors. It parses
the container, decodes its images and metadata, and does the integer part of the
way from raw samples to a picture. Every function has a contract that Verus
proves, with one exception: the text of an I/O error comes from the platform, and
nothing is claimed of it.

## Layout

- `src/` is the verified library.
  - `parse`, `io`, `load`, `sections`, `properties`: the container, its directory,
    and the loading of sections, with a recoverable error for every malformed
    input.
  - `tree`, `entropy`, `huffman`: code trees and the decoders of image planes.
  - `camf`, `camf_entries`, `meta`, `print_meta`, `print_sections`: the camera's
    metadata, look-ups in it, and the texts that show it.
  - `area`, `image`, `image_plan`: rasters, windows into them, and the steps in
    which an image is made.
  - `black_level`, `bad_pixels`, `bad_pixel_sources`, `preprocess`,
    `white_balance`, `spatial_gain`: from raw samples to the intermediate range.
  - `reflect`, `nlm`, `img3`, `denoise`, `quattro`: noise reduction and full-size
    images of Quattro sensors.
  - `highlight`, `highlight_recovery`: the counts and maps that the repair of
    overexposed samples goes by.
  - `histogram`, `preview`: histograms and previews.
- `app/` is the converter around it: floating-point colour work, threads, files,
  and the switches of the environment.
- `tests/` runs the library.

## Conventions

- Real numbers are held as the bits of a float, 32 of them in the metadata. The
  library moves them and never computes with them.
- A raster is a `Vec` of samples and a `Window` that says where its pixels stand.
- A public proof function whose name begins with `law_` states what holds of
  several functions together.
- A function that can be cancelled takes a `Control`. It fails with
  `Error::Cancelled` only where a token was given.
