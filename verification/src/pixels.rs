//! Expansion of decoded 8-bit images to tightly packed RGBA8. Gray
//! becomes gray in all three colour channels; a missing alpha is opaque.
//! Data that is already RGBA is kept byte for byte; for the other layouts,
//! trailing bytes that do not make a whole pixel are dropped.
use vstd::prelude::*;

verus! {

/// Channel layout of 8-bit pixel data.
#[derive(Clone, Copy, PartialEq, Eq, Structural, Debug)]
pub enum PixelLayout {
    Rgba,
    Rgb,
    Gray,
    GrayAlpha,
}

/// Bytes per pixel of a layout.
pub open spec fn layout_width(l: PixelLayout) -> nat {
    match l {
        PixelLayout::Rgba => 4,
        PixelLayout::Rgb => 3,
        PixelLayout::Gray => 1,
        PixelLayout::GrayAlpha => 2,
    }
}

/// The RGBA pixel that input pixel `i` becomes.
pub open spec fn rgba_pixel(l: PixelLayout, p: Seq<u8>, i: int) -> Seq<u8> {
    match l {
        PixelLayout::Rgba => seq![p[4 * i], p[4 * i + 1], p[4 * i + 2], p[4 * i + 3]],
        PixelLayout::Rgb => seq![p[3 * i], p[3 * i + 1], p[3 * i + 2], 255u8],
        PixelLayout::Gray => seq![p[i], p[i], p[i], 255u8],
        PixelLayout::GrayAlpha => seq![p[2 * i], p[2 * i], p[2 * i], p[2 * i + 1]],
    }
}

/// An exact copy of `pixels`.
fn copy_bytes(pixels: &Vec<u8>) -> (out: Vec<u8>)
    ensures
        out@ == pixels@,
{
    let mut out: Vec<u8> = Vec::new();
    let mut i: usize = 0;
    while i < pixels.len()
        invariant
            i <= pixels@.len(),
            out@ == pixels@.subrange(0, i as int),
        decreases pixels@.len() - i,
    {
        out.push(pixels[i]);
        i = i + 1;
    }
    out
}

/// RGBA8 data for `pixels` laid out as `layout`: RGBA data unchanged, every
/// other layout expanded pixel by pixel.
pub fn expand_to_rgba8(layout: PixelLayout, pixels: &Vec<u8>) -> (out: Vec<u8>)
    ensures
        layout == PixelLayout::Rgba ==> out@ == pixels@,
        layout != PixelLayout::Rgba ==> out@.len() == pixels@.len() / layout_width(layout) * 4,
        layout != PixelLayout::Rgba ==> forall|i: int, c: int|
            0 <= i < pixels@.len() / layout_width(layout) && 0 <= c < 4 ==> #[trigger] out@[4 * i + c]
                == rgba_pixel(layout, pixels@, i)[c],
{
    if layout == PixelLayout::Rgba {
        return copy_bytes(pixels);
    }
    let w: usize = match layout {
        PixelLayout::Rgba => 4,
        PixelLayout::Rgb => 3,
        PixelLayout::Gray => 1,
        PixelLayout::GrayAlpha => 2,
    };
    let n = pixels.len() / w;
    let mut out: Vec<u8> = Vec::new();
    let mut i: usize = 0;
    while i < n
        invariant
            w == layout_width(layout),
            n == pixels@.len() / layout_width(layout),
            layout != PixelLayout::Rgba,
            pixels@.len() <= usize::MAX,
            i <= n,
            out@.len() == 4 * i,
            forall|k: int, c: int|
                0 <= k < i && 0 <= c < 4 ==> #[trigger] out@[4 * k + c] == rgba_pixel(layout, pixels@, k)[c],
        decreases n - i,
    {
        proof {
            assert(w * i + w <= pixels@.len()) by (nonlinear_arith)
                requires
                    i < n,
                    n == pixels@.len() / (w as nat),
                    w >= 1,
            {
                assert(n * w <= pixels@.len());
                assert((i + 1) * w <= n * w);
            }
            if layout == PixelLayout::Rgb {
                assert(3 * i + 3 <= pixels@.len()) by (nonlinear_arith)
                    requires
                        w == 3,
                        w * i + w <= pixels@.len(),
                ;
            }
        }
        let (r, g, b, a) = match layout {
            PixelLayout::Rgba => (pixels[4 * i], pixels[4 * i + 1], pixels[4 * i + 2], pixels[4 * i + 3]),
            PixelLayout::Rgb => (pixels[3 * i], pixels[3 * i + 1], pixels[3 * i + 2], 255u8),
            PixelLayout::Gray => (pixels[i], pixels[i], pixels[i], 255u8),
            PixelLayout::GrayAlpha => (pixels[2 * i], pixels[2 * i], pixels[2 * i], pixels[2 * i + 1]),
        };
        let ghost before = out@;
        out.push(r);
        out.push(g);
        out.push(b);
        out.push(a);
        proof {
            assert forall|k: int, c: int|
                0 <= k < i + 1 && 0 <= c < 4 implies #[trigger] out@[4 * k + c] == rgba_pixel(
                layout,
                pixels@,
                k,
            )[c] by {
                if k < i {
                    assert(out@[4 * k + c] == before[4 * k + c]);
                }
            }
        }
        i = i + 1;
    }
    out
}

} // verus!
