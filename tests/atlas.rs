use enrus::font::{
    assemble_atlas, collect_boxes, plan_atlas, rasterize_glyphs, CharRegion, Font, FontError,
    GlyphOutcome, GlyphQuery, RenderJob,
};
use enrus::geometry::{CanvasSize, GlyphBox, Placement};
use enrus::texture::{Format, Texture};

fn q(character: char, outcome: GlyphOutcome) -> GlyphQuery {
    GlyphQuery { character, outcome }
}

fn pl(character: char, x: u32, y: u32, width: u32, height: u32) -> Placement {
    Placement { character, x, y, width, height }
}

#[test]
fn plan_two_glyphs_of_equal_size() {
    let queries = vec![
        q('A', GlyphOutcome::Bounds(10, 12)),
        q('B', GlyphOutcome::Bounds(10, 12)),
    ];
    let plan = plan_atlas(&queries, 512).unwrap();
    assert_eq!(plan.placements, vec![pl('A', 0, 0, 11, 13), pl('B', 11, 0, 11, 13)]);
    assert_eq!(plan.size, CanvasSize { width: 22, height: 13 });
}

#[test]
fn plan_oversized_glyph_fails() {
    let queries = vec![q('X', GlyphOutcome::Bounds(600, 600))];
    match plan_atlas(&queries, 512) {
        Err(e) => assert_eq!(e, FontError::CanvasTooSmall(512, 512)),
        Ok(_) => panic!("a 600 by 600 glyph cannot fit 512"),
    }
}

#[test]
fn plan_glyph_that_fills_extent_after_padding() {
    let queries = vec![q('X', GlyphOutcome::Bounds(511, 511))];
    let plan = plan_atlas(&queries, 512).unwrap();
    assert_eq!(plan.size, CanvasSize { width: 512, height: 512 });
    let queries = vec![q('X', GlyphOutcome::Bounds(512, 1))];
    assert!(matches!(plan_atlas(&queries, 512), Err(FontError::CanvasTooSmall(512, 512))));
}

#[test]
fn plan_of_nothing_is_empty() {
    let plan = plan_atlas(&vec![], 512).unwrap();
    assert!(plan.placements.is_empty());
    assert_eq!(plan.size, CanvasSize { width: 0, height: 0 });
}

#[test]
fn collect_pads_and_drops_missing_glyphs() {
    let queries = vec![
        q('a', GlyphOutcome::Bounds(3, 4)),
        q('b', GlyphOutcome::NoGlyph),
        q('c', GlyphOutcome::Bounds(0, 0)),
    ];
    let boxes = collect_boxes(&queries).unwrap();
    assert_eq!(
        boxes,
        vec![
            GlyphBox { character: 'a', width: 4, height: 5 },
            GlyphBox { character: 'c', width: 1, height: 1 },
        ]
    );
}

#[test]
fn collect_reports_first_unmeasured_glyph() {
    let queries = vec![
        q('a', GlyphOutcome::Bounds(3, 4)),
        q('b', GlyphOutcome::BoundsFailed),
        q('c', GlyphOutcome::BoundsFailed),
    ];
    assert_eq!(collect_boxes(&queries), Err(FontError::GlyphBoundsFailed('b')));
    let queries = vec![q('n', GlyphOutcome::Bounds(-1, 4))];
    assert_eq!(collect_boxes(&queries), Err(FontError::GlyphBoundsFailed('n')));
    assert!(matches!(plan_atlas(&queries, 512), Err(FontError::GlyphBoundsFailed('n'))));
}

#[test]
fn render_origin_is_bottom_left_of_box() {
    let queries = vec![
        q('A', GlyphOutcome::Bounds(10, 12)),
        q('B', GlyphOutcome::Bounds(10, 12)),
    ];
    let plan = plan_atlas(&queries, 512).unwrap();
    let jobs = rasterize_glyphs(&plan);
    assert_eq!(
        jobs,
        vec![
            RenderJob { character: 'A', origin_x: 0, origin_y: 13 },
            RenderJob { character: 'B', origin_x: 11, origin_y: 13 },
        ]
    );
}

#[test]
fn assembled_regions_exclude_padding() {
    let queries = vec![
        q('A', GlyphOutcome::Bounds(10, 12)),
        q('B', GlyphOutcome::Bounds(10, 12)),
        q('C', GlyphOutcome::NoGlyph),
    ];
    let plan = plan_atlas(&queries, 512).unwrap();
    let pixels = vec![7u8; 22 * 13];
    let font = assemble_atlas(plan, pixels);
    assert_eq!(
        font.map(),
        &vec![
            CharRegion { character: 'A', x: 0, y: 0, width: 10, height: 12 },
            CharRegion { character: 'B', x: 11, y: 0, width: 10, height: 12 },
        ]
    );
    assert_eq!(font.region('B'), Some(CharRegion { character: 'B', x: 11, y: 0, width: 10, height: 12 }));
    assert_eq!(font.region('C'), None);
    let atlas = font.atlas();
    assert_eq!(atlas.size, CanvasSize { width: 22, height: 13 });
    assert_eq!(atlas.format, Format::Grayscale);
    assert_eq!(atlas.pixels.len(), 22 * 13);
    for r in font.map() {
        let last = ((r.y + r.height - 1) * atlas.size.width + r.x + r.width - 1) as usize;
        assert!(last < atlas.pixels.len());
    }
}

#[test]
fn font_new_keeps_its_parts() {
    let size = CanvasSize { width: 2, height: 3 };
    let texture = Texture::new(size, Format::Grayscale, vec![1, 2, 3, 4, 5, 6]);
    let map = vec![CharRegion { character: 'z', x: 1, y: 1, width: 1, height: 2 }];
    let font = Font::new(texture, map.clone());
    assert_eq!(font.map(), &map);
    assert_eq!(font.atlas().pixels, vec![1, 2, 3, 4, 5, 6]);
    assert_eq!(font.region('z'), Some(map[0]));
}

#[test]
fn bytes_per_pixel_of_each_format() {
    assert_eq!(Format::bytes_for_format(Format::Grayscale), 1);
    assert_eq!(Format::bytes_for_format(Format::RGB), 3);
    assert_eq!(Format::bytes_for_format(Format::RGBA), 4);
}

#[test]
fn texture_new_keeps_size_format_and_pixels() {
    let t = Texture::new(CanvasSize { width: 2, height: 1 }, Format::RGB, vec![9; 6]);
    assert_eq!(t.size, CanvasSize { width: 2, height: 1 });
    assert_eq!(t.format, Format::RGB);
    assert_eq!(t.pixels, vec![9; 6]);
}

#[test]
fn glyph_pixel_reads_inside_the_region() {
    let size = CanvasSize { width: 3, height: 2 };
    let texture = Texture::new(size, Format::Grayscale, vec![10, 11, 12, 20, 21, 22]);
    let map = vec![CharRegion { character: 'q', x: 1, y: 0, width: 2, height: 2 }];
    let font = Font::new(texture, map);
    assert_eq!(font.glyph_pixel('q', 0, 0), Some(11));
    assert_eq!(font.glyph_pixel('q', 1, 1), Some(22));
    assert_eq!(font.glyph_pixel('q', 2, 0), None);
    assert_eq!(font.glyph_pixel('q', 0, 2), None);
    assert_eq!(font.glyph_pixel('r', 0, 0), None);
}
