use quantum_ide::atlas::{build_atlas, pack_glyphs, quad_indices, PackedRect, ShelfPacker};
use quantum_ide::glyph::{
    coverage_to_pixels, glyphs_or_error, rasterize_glyph, rasterize_line, GlyphImage, RasterizedGlyph,
    TextError,
};
use quantum_ide::input::{caret_glyph, char_key, cursor_blink_on, shortcut_for, Shortcut};
use quantum_ide::editor::Key;

#[test]
fn coverage_becomes_white_rgba() {
    assert_eq!(coverage_to_pixels(&[0, 128, 255]), vec![255, 255, 255, 0, 255, 255, 255, 128, 255, 255, 255, 255]);
}

#[test]
fn rasterized_glyph_is_offset_by_its_placement() {
    let g = rasterize_glyph(10, 2, 20, 1, 15, 2, 1, &[7, 9]).unwrap();
    assert_eq!((g.x, g.y, g.width, g.height), (11, 7, 2, 1));
    assert_eq!(g.pixels, vec![255, 255, 255, 7, 255, 255, 255, 9]);
    assert_eq!(g.pixels.len(), (g.width * g.height * 4) as usize);
}

#[test]
fn empty_image_gives_no_glyph() {
    assert!(rasterize_glyph(0, 0, 0, 0, 0, 0, 5, &[]).is_none());
    assert!(rasterize_glyph(0, 0, 0, 0, 0, 5, 0, &[]).is_none());
}

#[test]
fn no_glyphs_is_an_error() {
    assert!(matches!(glyphs_or_error(Vec::new()), Err(TextError::NoGlyphs)));
    let g = rasterize_glyph(0, 0, 0, 0, 0, 1, 1, &[1]).unwrap();
    assert_eq!(glyphs_or_error(vec![g]).unwrap().len(), 1);
}

#[test]
fn shelf_packer_wraps_to_a_new_shelf() {
    let mut packer = ShelfPacker::new(10);
    assert_eq!(packer.place(4, 3), PackedRect { x: 0, y: 0 });
    assert_eq!(packer.place(5, 6), PackedRect { x: 4, y: 0 });
    assert_eq!(packer.place(2, 1), PackedRect { x: 0, y: 6 });
    assert_eq!(packer.used_height(), 7);
}

#[test]
fn packed_glyphs_do_not_overlap() {
    let sizes = vec![(3, 2), (3, 4), (5, 1), (1, 1), (10, 2)];
    let (rects, height) = pack_glyphs(8, &sizes).unwrap();
    assert_eq!(rects.len(), 5);
    for i in 0..rects.len() {
        for j in (i + 1)..rects.len() {
            let (a, b) = (rects[i], rects[j]);
            let (sa, sb) = (sizes[i], sizes[j]);
            assert!(
                a.x + sa.0 <= b.x || b.x + sb.0 <= a.x || a.y + sa.1 <= b.y || b.y + sb.1 <= a.y
            );
        }
    }
    assert_eq!(height, 7);
}

#[test]
fn empty_atlas_is_one_row_high() {
    let (rects, height) = pack_glyphs(1024, &Vec::new()).unwrap();
    assert!(rects.is_empty());
    assert_eq!(height, 1);
}

#[test]
fn atlas_holds_each_glyph_row_at_its_place() {
    let g0 = RasterizedGlyph { x: 0, y: 0, width: 1, height: 2, pixels: vec![1, 2, 3, 4, 5, 6, 7, 8] };
    let g1 = RasterizedGlyph { x: 0, y: 0, width: 1, height: 1, pixels: vec![9, 9, 9, 9] };
    let rects = vec![PackedRect { x: 0, y: 0 }, PackedRect { x: 1, y: 1 }];
    let atlas = build_atlas(2, 2, &vec![g0, g1], &rects);
    assert_eq!(atlas, vec![1, 2, 3, 4, 0, 0, 0, 0, 5, 6, 7, 8, 9, 9, 9, 9]);
}

#[test]
fn quad_indices_make_two_triangles_per_glyph() {
    assert_eq!(quad_indices(2), vec![0, 1, 2, 0, 2, 3, 4, 5, 6, 4, 6, 7]);
    let wrapped = quad_indices(16385);
    assert_eq!(&wrapped[16384 * 6..], &[0, 1, 2, 0, 2, 3]);
}

#[test]
fn one_char_text_is_a_char_key() {
    assert_eq!(char_key("a"), Some(Key::Char('a')));
    assert_eq!(char_key("\u{e9}"), Some(Key::Char('\u{e9}')));
    assert_eq!(char_key("ab"), None);
    assert_eq!(char_key(""), None);
}

#[test]
fn control_z_and_y_are_shortcuts() {
    assert_eq!(shortcut_for(true, "z"), Some(Shortcut::Undo));
    assert_eq!(shortcut_for(true, "Z"), Some(Shortcut::Undo));
    assert_eq!(shortcut_for(true, "y"), Some(Shortcut::Redo));
    assert_eq!(shortcut_for(true, "Y"), Some(Shortcut::Redo));
    assert_eq!(shortcut_for(false, "z"), None);
    assert_eq!(shortcut_for(true, "x"), None);
    assert_eq!(shortcut_for(true, "zz"), None);
}

#[test]
fn cursor_blinks_every_half_second() {
    assert!(cursor_blink_on(0));
    assert!(cursor_blink_on(499));
    assert!(!cursor_blink_on(500));
    assert!(!cursor_blink_on(999));
    assert!(cursor_blink_on(1000));
}

#[test]
fn caret_follows_the_glyph_before_it() {
    assert_eq!(caret_glyph(Some(5), 0), None);
    assert_eq!(caret_glyph(Some(5), 1), Some(0));
    assert_eq!(caret_glyph(Some(5), 5), Some(4));
    assert_eq!(caret_glyph(Some(5), 9), Some(4));
    assert_eq!(caret_glyph(Some(0), 3), None);
    assert_eq!(caret_glyph(None, 3), None);
}

#[test]
fn packing_that_overflows_u32_is_refused() {
    assert!(pack_glyphs(10, &vec![(u32::MAX, 1), (1, 1)]).is_none());
    assert!(pack_glyphs(10, &vec![(u32::MAX, 1)]).is_some());
    assert!(pack_glyphs(10, &vec![(5, u32::MAX), (8, 1)]).is_none());
    assert!(pack_glyphs(10, &vec![(0, 7); 1000]).is_some());
}

fn image(x: i32, w: u32, h: u32, coverage: Vec<u8>) -> GlyphImage {
    GlyphImage { glyph_x: x, glyph_y: 3, line_y: 30, left: 1, top: 20, width: w, height: h, coverage }
}

#[test]
fn a_line_keeps_one_glyph_per_image_with_area_in_order() {
    let images = vec![
        Some(image(0, 1, 1, vec![10])),
        None,
        Some(image(5, 0, 4, vec![])),
        Some(image(9, 2, 1, vec![20, 30])),
    ];
    let glyphs = rasterize_line(&images).unwrap();
    assert_eq!(glyphs.len(), 2);
    assert_eq!((glyphs[0].x, glyphs[0].y, glyphs[0].width, glyphs[0].height), (1, 13, 1, 1));
    assert_eq!(glyphs[0].pixels, vec![255, 255, 255, 10]);
    assert_eq!((glyphs[1].x, glyphs[1].width), (10, 2));
    assert_eq!(glyphs[1].pixels, vec![255, 255, 255, 20, 255, 255, 255, 30]);
}

#[test]
fn a_line_without_images_with_area_has_no_glyphs() {
    assert!(matches!(rasterize_line(&Vec::new()), Err(TextError::NoGlyphs)));
    let images = vec![None, Some(image(0, 3, 0, vec![]))];
    assert!(matches!(rasterize_line(&images), Err(TextError::NoGlyphs)));
}

#[test]
fn later_bitmaps_never_sit_higher_and_height_is_tight() {
    let sizes = vec![(6, 3), (6, 2), (3, 5), (8, 1)];
    let (rects, height) = pack_glyphs(10, &sizes).unwrap();
    for w in rects.windows(2) {
        assert!(w[0].y <= w[1].y);
    }
    let lowest = rects.iter().zip(sizes.iter()).map(|(r, s)| r.y + s.1).max().unwrap();
    assert_eq!(height, lowest);
}
