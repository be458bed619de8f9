# qracer

Restores QR codes from photos and screenshots: the image is binarised, the
code is located and straightened, decoded, and its module grid is
regenerated or sampled so that a clean copy can be drawn. For WeChat
mini-program and Douyin codes the library holds the integer steps (ring run
clean-up, layout checks, the choice among line counts, the kind decision);
the floating-point ring geometry those codes need is not part of this
crate.

The library in `src/` is verified with Verus. Every function states what it
returns in its contract, and the laws that tie functions together are proof
functions next to them:

- `pipeline::preprocess`: Otsu binarisation and the 3x3 opening/closing
  pass, as exact functions of the pixels.
- `codec::qr_format`, `codec::qr_checks`, `codec::qr`, `codec::qr_grid`:
  format-word encoding and error-correcting decoding, module sampling, grid
  size estimation and the shifted/scaled grid search, decoding through rxing
  and regeneration through qrcodegen.
- `qr_match`: matching regenerated masks against the sampled grid and the
  regions ignored when comparing.
- `codec::dy_grid`, `codec::wx_grid`, `codec::data_matrix`: run analysis on
  the rings of circular codes and the symbol tables.
- `detect`: run-length scans, flood fill and connected-component labelling,
  colour classes and polar signatures used to tell code kinds apart, and the
  decision between the kinds.
- `session`: the QR state of a restoration session and how processing a
  corrected image, picking a mask, the grid fallback and the automatic mask
  choice change it.
- `appearance`, `timestamp`, `text`: square statistics for styled QR codes,
  calendar conversion and zero-padded formatting.

`app/` is a small command-line front end around the library for QR codes
only (`qracer <image> [--mask N | --grid | --auto]...`). The floating-point
steps of the QR flow (finder clustering, the homography, bilinear
resampling, colour hints) live there, next to the image loading; it runs no
circular-code finder search, so it reports a kind only from the QR finders
and the colour hints.
