//! Animation export: the parameters an animation interpolates, its
//! configuration, and the PNG bytes of each exported frame.
//!
//! Frames are encoded as RGBA PNG files whose pixel data is stored in a
//! zlib stream of uncompressed DEFLATE blocks.

use vstd::prelude::*;
use std::path::PathBuf;
use crate::png::{
    crc32, crc32_table, crc_feed, crc_table_entry, lemma_crc_update_append, png_chunk,
    push_be32, push_png_chunk, push_zlib_stored, be32, zlib_stored,
};

verus! {

/// Declares `std::path::PathBuf` (opaque) so that configurations can hold
/// an output directory.
#[verifier::external_type_specification]
#[verifier::external_body]
pub struct ExPathBuf(std::path::PathBuf);

/// Declares `std::io::Error` (opaque) so that export errors can carry one.
#[verifier::external_type_specification]
#[verifier::external_body]
pub struct ExIoError(std::io::Error);

// ── AnimationParameter ────────────────────────────────────────────────────────

/// The parameter to animate over the frame sequence.
#[derive(Debug, Clone, Copy, PartialEq, Eq, Hash, Structural)]
pub enum AnimationParameter {
    /// Camera orbit angle in radians.
    RotationAngle,
    /// Uniform scene scale factor.
    Scale,
    /// Hue rotation applied to the color palette (degrees, 0..360).
    ColorHue,
    /// Symmetry winding number (integer-like, real-valued during interpolation).
    WindingNumber,
}

/// How to interpolate between start and end values over the animation.
#[derive(Debug, Clone, Copy, PartialEq, Eq, Structural)]
pub enum InterpolationMode {
    /// Even linear spacing: `value = start + (end - start) * t`.
    Linear,
    /// Smooth cosine easing: `value = start + (end - start) * 0.5 * (1 − cos(π·t))`.
    Sinusoidal,
}

/// Configuration for an animation export.
#[derive(Debug)]
pub struct AnimationConfig {
    /// Number of frames to render.
    pub frames: usize,
    /// Playback frame rate (used for duration calculation only).
    pub fps: u32,
    /// Frame width in pixels.
    pub width: u32,
    /// Frame height in pixels.
    pub height: u32,
    /// Directory to write PNG frames into.
    pub output_dir: PathBuf,
}

/// Errors that can occur during animation export.
#[derive(Debug)]
pub enum ExportError {
    /// An I/O operation failed.
    Io(std::io::Error),
    /// The caller's render callback returned an error.
    Render(String),
    /// Invalid configuration (e.g. zero frames).
    InvalidConfig(String),
}

// ── PNG bytes ─────────────────────────────────────────────────────────────────

/// The eight-byte PNG file signature.
pub open spec fn png_signature() -> Seq<u8> {
    seq![137u8, 80, 78, 71, 13, 10, 26, 10]
}

/// The IHDR payload of an 8-bit RGBA, non-interlaced image.
pub open spec fn ihdr_rgba(width: u32, height: u32) -> Seq<u8> {
    be32(width) + be32(height) + seq![8u8, 6, 0, 0, 0]
}

/// The filtered scanlines of the first `rows` rows: each row is a zero
/// filter byte followed by its `row_len` bytes of `rgba`.
pub open spec fn scanlines(rgba: Seq<u8>, row_len: int, rows: int) -> Seq<u8>
    decreases rows,
{
    if rows <= 0 {
        Seq::empty()
    } else {
        scanlines(rgba, row_len, rows - 1) + seq![0u8] + rgba.subrange(
            (rows - 1) * row_len,
            rows * row_len,
        )
    }
}

/// The complete PNG file for `height` rows of `width` RGBA pixels.
pub open spec fn png_file(width: u32, height: u32, rgba: Seq<u8>) -> Seq<u8> {
    png_signature() + png_chunk(seq![73u8, 72, 68, 82], ihdr_rgba(width, height)) + png_chunk(
        seq![73u8, 68, 65, 84],
        zlib_stored(scanlines(rgba, width * 4, height as int)),
    ) + png_chunk(seq![73u8, 69, 78, 68], Seq::empty())
}

/// CRC-32 of a chunk's type followed by its data.
pub fn png_crc(tag: &[u8], data: &[u8]) -> (crc: u32)
    ensures
        crc == crc32(tag@ + data@),
{
    let table = crc32_table();
    let c = crc_feed(&table, crc_feed(&table, 0xFFFF_FFFF, tag), data);
    proof {
        lemma_crc_update_append(0xFFFF_FFFF, tag@, data@);
    }
    c ^ 0xFFFF_FFFF
}

/// Wrap raw bytes in a DEFLATE "stored" (uncompressed) stream with a zlib
/// header and Adler-32 trailer.
pub fn deflate_store(data: &[u8]) -> (out: Vec<u8>)
    ensures
        out@ == zlib_stored(data@),
{
    let mut out: Vec<u8> = Vec::new();
    push_zlib_stored(&mut out, data);
    proof {
        assert(out@ =~= zlib_stored(data@));
    }
    out
}

/// Appends one PNG chunk (length, type, data, CRC) to `f`.
pub fn write_png_chunk(f: &mut Vec<u8>, tag: &[u8; 4], data: &[u8])
    ensures
        final(f)@ == old(f)@ + png_chunk(tag@, data@),
{
    let table = crc32_table();
    push_png_chunk(f, &table, tag.as_slice(), data);
}

/// Appends the bytes of `src` to `out`.
fn push_all(out: &mut Vec<u8>, src: &[u8])
    ensures
        final(out)@ == old(out)@ + src@,
{
    let mut i: usize = 0;
    while i < src.len()
        invariant
            i <= src@.len(),
            out@ == old(out)@ + src@.take(i as int),
        decreases src@.len() - i,
    {
        out.push(src[i]);
        i += 1;
        proof {
            assert(out@ =~= old(out)@ + src@.take(i as int));
        }
    }
    proof {
        assert(src@.take(src@.len() as int) =~= src@);
    }
}

/// The bytes of an RGBA PNG file for `height` rows of `width` pixels taken
/// from `rgba` (four bytes per pixel, row-major).
pub fn encode_png(width: u32, height: u32, rgba: &[u8]) -> (file: Vec<u8>)
    requires
        width * 4 <= u32::MAX,
        (width * 4 + 1) * height <= usize::MAX,
        (width * 4) * height <= rgba@.len(),
    ensures
        file@ == png_file(width, height, rgba@),
{
    let table = crc32_table();
    let mut f: Vec<u8> = Vec::new();
    let sig: [u8; 8] = [137, 80, 78, 71, 13, 10, 26, 10];
    push_all(&mut f, sig.as_slice());

    let mut ihdr: Vec<u8> = Vec::new();
    push_be32(&mut ihdr, width);
    push_be32(&mut ihdr, height);
    ihdr.push(8);
    ihdr.push(6);
    ihdr.push(0);
    ihdr.push(0);
    ihdr.push(0);
    let ihdr_tag: [u8; 4] = [73, 72, 68, 82];
    push_png_chunk(&mut f, &table, ihdr_tag.as_slice(), ihdr.as_slice());

    let row_len = (width * 4) as usize;
    proof {
        assert((width * 4) * height <= (width * 4 + 1) * height) by (nonlinear_arith);
    }
    let mut raw: Vec<u8> = Vec::new();
    let mut row: usize = 0;
    while row < height as usize
        invariant
            row <= height,
            row_len == width * 4,
            (width * 4) * height <= rgba@.len(),
            (width * 4) * height <= usize::MAX,
            raw@ == scanlines(rgba@, row_len as int, row as int),
        decreases height - row,
    {
        proof {
            assert((row + 1) * row_len <= (width * 4) * height) by (nonlinear_arith)
                requires row + 1 <= height, row_len == width * 4;
            assert(row * row_len <= (row + 1) * row_len) by (nonlinear_arith)
                requires row_len >= 0;
        }
        raw.push(0u8);
        let start = row * row_len;
        let end = (row + 1) * row_len;
        let ghost before = raw@;
        let mut i = start;
        while i < end
            invariant
                start <= i <= end,
                end <= rgba@.len(),
                raw@ == before + rgba@.subrange(start as int, i as int),
            decreases end - i,
        {
            raw.push(rgba[i]);
            i += 1;
            proof {
                assert(raw@ =~= before + rgba@.subrange(start as int, i as int));
            }
        }
        row += 1;
        proof {
            assert(raw@ =~= scanlines(rgba@, row_len as int, row as int));
        }
    }
    let idat = deflate_store(raw.as_slice());
    let idat_tag: [u8; 4] = [73, 68, 65, 84];
    push_png_chunk(&mut f, &table, idat_tag.as_slice(), idat.as_slice());
    let iend_tag: [u8; 4] = [73, 69, 78, 68];
    let empty: [u8; 0] = [];
    push_png_chunk(&mut f, &table, iend_tag.as_slice(), empty.as_slice());
    proof {
        assert(ihdr@ =~= ihdr_rgba(width, height));
        assert(sig@ =~= png_signature());
        assert(ihdr_tag@ =~= seq![73u8, 72, 68, 82]);
        assert(idat_tag@ =~= seq![73u8, 68, 65, 84]);
        assert(iend_tag@ =~= seq![73u8, 69, 78, 68]);
        assert(empty@ =~= Seq::<u8>::empty());
        assert(f@ =~= png_file(width, height, rgba@));
    }
    f
}

} // verus!
