use enrus::geometry::{CanvasSize, GlyphBox, Placement};
use enrus::packer::{glyph_packing, PackingError};
use enrus::sort::sort_boxes;

fn gb(character: char, width: u32, height: u32) -> GlyphBox {
    GlyphBox { character, width, height }
}

fn pl(character: char, x: u32, y: u32, width: u32, height: u32) -> Placement {
    Placement { character, x, y, width, height }
}

fn overlaps(a: &Placement, b: &Placement) -> bool {
    a.x < b.x + b.width && b.x < a.x + a.width && a.y < b.y + b.height && b.y < a.y + a.height
}

#[test]
fn packing_empty_input() {
    let r = glyph_packing(&vec![], 512);
    assert_eq!(r, Ok((vec![], CanvasSize { width: 0, height: 0 })));
}

#[test]
fn packing_two_equal_boxes_side_by_side() {
    let r = glyph_packing(&vec![gb('B', 11, 13), gb('A', 11, 13)], 512);
    assert_eq!(
        r,
        Ok((vec![pl('A', 0, 0, 11, 13), pl('B', 11, 0, 11, 13)], CanvasSize { width: 22, height: 13 }))
    );
}

#[test]
fn packing_taller_first() {
    let r = glyph_packing(&vec![gb('a', 4, 3), gb('b', 5, 9), gb('c', 2, 6)], 100);
    assert_eq!(
        r,
        Ok((
            vec![pl('b', 0, 0, 5, 9), pl('c', 5, 0, 2, 6), pl('a', 7, 0, 4, 3)],
            CanvasSize { width: 11, height: 9 }
        ))
    );
}

#[test]
fn packing_starts_new_shelf() {
    let r = glyph_packing(&vec![gb('c', 10, 5), gb('a', 10, 5), gb('b', 10, 5)], 20);
    assert_eq!(
        r,
        Ok((
            vec![pl('a', 0, 0, 10, 5), pl('b', 10, 0, 10, 5), pl('c', 0, 5, 10, 5)],
            CanvasSize { width: 20, height: 10 }
        ))
    );
}

#[test]
fn packing_shelf_height_is_tallest_box() {
    let r = glyph_packing(&vec![gb('a', 6, 8), gb('b', 6, 4), gb('c', 6, 4)], 12);
    assert_eq!(
        r,
        Ok((
            vec![pl('a', 0, 0, 6, 8), pl('b', 6, 0, 6, 4), pl('c', 0, 8, 6, 4)],
            CanvasSize { width: 12, height: 12 }
        ))
    );
}

#[test]
fn packing_zero_sized_boxes() {
    let r = glyph_packing(&vec![gb('a', 0, 0), gb('b', 3, 0)], 10);
    assert_eq!(
        r,
        Ok((vec![pl('a', 0, 0, 0, 0), pl('b', 0, 0, 3, 0)], CanvasSize { width: 3, height: 0 }))
    );
}

#[test]
fn packing_box_taller_than_extent_fails() {
    let r = glyph_packing(&vec![gb('a', 10, 11)], 10);
    assert_eq!(r, Err(PackingError::CanvasTooSmall(10, 10)));
}

#[test]
fn packing_box_wider_than_extent_fails() {
    let r = glyph_packing(&vec![gb('a', 11, 1)], 10);
    assert_eq!(r, Err(PackingError::CanvasTooSmall(10, 10)));
}

#[test]
fn packing_too_much_area_fails() {
    let boxes = vec![gb('a', 6, 6), gb('b', 6, 6), gb('c', 6, 6), gb('d', 6, 6), gb('e', 1, 1)];
    assert_eq!(glyph_packing(&boxes, 12), Err(PackingError::CanvasTooSmall(12, 12)));
    assert!(glyph_packing(&boxes[..4].to_vec(), 12).is_ok());
}

#[test]
fn packing_exact_fit() {
    let r = glyph_packing(&vec![gb('a', 10, 10)], 10);
    assert_eq!(r, Ok((vec![pl('a', 0, 0, 10, 10)], CanvasSize { width: 10, height: 10 })));
}

#[test]
fn packing_order_of_input_does_not_matter() {
    let a = vec![gb('x', 3, 7), gb('y', 9, 2), gb('z', 3, 7), gb('w', 5, 5), gb('x', 1, 7)];
    let b = vec![gb('x', 1, 7), gb('w', 5, 5), gb('z', 3, 7), gb('x', 3, 7), gb('y', 9, 2)];
    let ra = glyph_packing(&a, 12);
    assert_eq!(ra, glyph_packing(&b, 12));
    assert_eq!(ra, glyph_packing(&a, 12));
}

#[test]
fn packing_no_overlap_and_inside_canvas() {
    let mut boxes = Vec::new();
    for i in 0..40u32 {
        let c = char::from_u32('!' as u32 + i).unwrap();
        boxes.push(gb(c, 3 + (i * 7) % 11, 2 + (i * 5) % 9));
    }
    let (placements, size) = glyph_packing(&boxes, 64).unwrap();
    assert_eq!(placements.len(), boxes.len());
    assert!(size.width <= 64 && size.height <= 64);
    for (i, a) in placements.iter().enumerate() {
        assert!(a.x + a.width <= size.width);
        assert!(a.y + a.height <= size.height);
        for (j, b) in placements.iter().enumerate() {
            if i != j {
                assert!(!overlaps(a, b));
            }
        }
    }
}

#[test]
fn sort_boxes_orders_by_height_then_character_then_width() {
    let s = sort_boxes(&vec![gb('b', 2, 5), gb('a', 3, 5), gb('c', 1, 9), gb('a', 1, 5)]);
    assert_eq!(s, vec![gb('c', 1, 9), gb('a', 1, 5), gb('a', 3, 5), gb('b', 2, 5)]);
}
