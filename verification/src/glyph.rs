//! Turning a rasterized glyph's coverage mask into RGBA pixels, and the
//! outcome of shaping a line.
use vstd::prelude::*;

verus! {

/// Why shaping produced nothing.
#[derive(Debug)]
pub enum TextError {
    NoGlyphs,
}

/// A glyph bitmap placed relative to the line's origin: `pixels` are RGBA8
/// rows of `width` pixels.
#[derive(Debug, Clone)]
pub struct RasterizedGlyph {
    pub x: i32,
    pub y: i32,
    pub width: u32,
    pub height: u32,
    pub pixels: Vec<u8>,
}

/// White RGBA pixels whose alpha is the coverage, one pixel per coverage
/// byte.
pub open spec fn coverage_to_rgba(coverage: Seq<u8>) -> Seq<u8> {
    Seq::new(coverage.len() * 4, |i: int| if i % 4 == 3 { coverage[i / 4] } else { 255u8 })
}

/// Expands a coverage mask into white RGBA pixels.
pub fn coverage_to_pixels(coverage: &[u8]) -> (pixels: Vec<u8>)
    requires
        coverage@.len() * 4 <= usize::MAX,
    ensures
        pixels@ == coverage_to_rgba(coverage@),
{
    let mut pixels: Vec<u8> = Vec::with_capacity(coverage.len() * 4);
    let mut i: usize = 0;
    while i < coverage.len()
        invariant
            i <= coverage@.len(),
            pixels@ =~= coverage_to_rgba(coverage@.take(i as int)),
        decreases coverage@.len() - i,
    {
        let c = coverage[i];
        pixels.push(255);
        pixels.push(255);
        pixels.push(255);
        pixels.push(c);
        i = i + 1;
        assert(pixels@ =~= coverage_to_rgba(coverage@.take(i as int)));
    }
    assert(coverage@.take(i as int) =~= coverage@);
    pixels
}

/// A glyph whose image is `width` by `height` pixels with the given coverage
/// mask, drawn at the physical glyph position (`glyph_x`, `glyph_y`) on the
/// line at `line_y`, the image offset by its placement (`left`, `top`).
/// An image with no area gives no glyph.
pub fn rasterize_glyph(
    glyph_x: i32,
    glyph_y: i32,
    line_y: i32,
    left: i32,
    top: i32,
    width: u32,
    height: u32,
    coverage: &[u8],
) -> (g: Option<RasterizedGlyph>)
    requires
        width > 0 && height > 0 ==> {
            &&& i32::MIN <= glyph_x + left <= i32::MAX
            &&& i32::MIN <= line_y + glyph_y <= i32::MAX
            &&& i32::MIN <= line_y + glyph_y - top <= i32::MAX
            &&& coverage@.len() * 4 <= usize::MAX
        },
    ensures
        g is None <==> (width == 0 || height == 0),
        g matches Some(g) ==> {
            &&& g.x == glyph_x + left
            &&& g.y == line_y + glyph_y - top
            &&& g.width == width
            &&& g.height == height
            &&& g.pixels@ == coverage_to_rgba(coverage@)
        },
{
    if width == 0 || height == 0 {
        return None;
    }
    let pixels = coverage_to_pixels(coverage);
    Some(RasterizedGlyph {
        x: glyph_x + left,
        y: line_y + glyph_y - top,
        width,
        height,
        pixels,
    })
}

/// The glyphs of a shaped line, or `NoGlyphs` when there are none.
pub fn glyphs_or_error(glyphs: Vec<RasterizedGlyph>) -> (r: Result<Vec<RasterizedGlyph>, TextError>)
    ensures
        glyphs@.len() == 0 <==> r is Err,
        r matches Ok(v) ==> v@ == glyphs@,
{
    if glyphs.len() == 0 {
        return Err(TextError::NoGlyphs);
    }
    Ok(glyphs)
}

/// A glyph image as the shaper hands it over: the physical glyph position,
/// the line's y, the image's placement offset and size, and its coverage
/// mask.
pub struct GlyphImage {
    pub glyph_x: i32,
    pub glyph_y: i32,
    pub line_y: i32,
    pub left: i32,
    pub top: i32,
    pub width: u32,
    pub height: u32,
    pub coverage: Vec<u8>,
}

/// The image has pixels to draw.
pub open spec fn has_area(img: GlyphImage) -> bool {
    img.width > 0 && img.height > 0
}

/// Drawing the image keeps its offsets within `i32` and its pixels within
/// memory.
pub open spec fn image_fits(img: GlyphImage) -> bool {
    has_area(img) ==> {
        &&& i32::MIN <= img.glyph_x + img.left <= i32::MAX
        &&& i32::MIN <= img.line_y + img.glyph_y <= i32::MAX
        &&& i32::MIN <= img.line_y + img.glyph_y - img.top <= i32::MAX
        &&& img.coverage@.len() * 4 <= usize::MAX
    }
}

/// The images with area, in order: those that become glyphs.
pub open spec fn drawn_images(images: Seq<Option<GlyphImage>>) -> Seq<GlyphImage>
    decreases images.len(),
{
    if images.len() == 0 {
        seq![]
    } else {
        let prev = drawn_images(images.drop_last());
        match images.last() {
            Some(img) => if has_area(img) {
                prev.push(img)
            } else {
                prev
            },
            None => prev,
        }
    }
}

/// `g` is the glyph drawn from `img`.
pub open spec fn glyph_from_image(g: RasterizedGlyph, img: GlyphImage) -> bool {
    &&& g.x == img.glyph_x + img.left
    &&& g.y == img.line_y + img.glyph_y - img.top
    &&& g.width == img.width
    &&& g.height == img.height
    &&& g.pixels@ == coverage_to_rgba(img.coverage@)
}

/// The glyphs of a shaped line, one per glyph image with area, in layout
/// order (glyphs without an image are given as `None`); `NoGlyphs` when no
/// image has area.
pub fn rasterize_line(images: &Vec<Option<GlyphImage>>) -> (r: Result<Vec<RasterizedGlyph>, TextError>)
    requires
        forall|i: int|
            0 <= i < images@.len() ==> (#[trigger] images@[i] matches Some(img) ==> image_fits(img)),
    ensures
        r is Err <==> drawn_images(images@).len() == 0,
        r matches Ok(v) ==> {
            &&& v@.len() == drawn_images(images@).len()
            &&& forall|k: int|
                0 <= k < v@.len() ==> glyph_from_image(#[trigger] v@[k], drawn_images(images@)[k])
        },
{
    let mut glyphs: Vec<RasterizedGlyph> = Vec::new();
    let mut i: usize = 0;
    while i < images.len()
        invariant
            i <= images@.len(),
            forall|j: int|
                0 <= j < images@.len() ==> (#[trigger] images@[j] matches Some(img) ==> image_fits(
                    img,
                )),
            glyphs@.len() == drawn_images(images@.take(i as int)).len(),
            forall|k: int|
                0 <= k < glyphs@.len() ==> glyph_from_image(
                    #[trigger] glyphs@[k],
                    drawn_images(images@.take(i as int))[k],
                ),
        decreases images@.len() - i,
    {
        let ghost t = images@.take(i + 1);
        assert(t.drop_last() =~= images@.take(i as int));
        assert(t.last() == images@[i as int]);
        match &images[i] {
            Some(img) => {
                assert(image_fits(*img));
                let g = rasterize_glyph(
                    img.glyph_x,
                    img.glyph_y,
                    img.line_y,
                    img.left,
                    img.top,
                    img.width,
                    img.height,
                    img.coverage.as_slice(),
                );
                if let Some(g) = g {
                    glyphs.push(g);
                }
            },
            None => {},
        }
        i = i + 1;
    }
    assert(images@.take(i as int) =~= images@);
    glyphs_or_error(glyphs)
}

} // verus!
