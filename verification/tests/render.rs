use bitmap_renderer::block::{block_layout, content_extent};
use bitmap_renderer::geometry::PlacedSquare;
use bitmap_renderer::raster::{paint_squares, render_png, PixelRect};

#[test]
fn block_layout_sizes_and_packs() {
    let layout = block_layout(&vec![50_000_000, 1_000, 0, 2_000_000_000]);
    assert_eq!(layout.width, 6);
    let got: Vec<_> = layout.squares.iter().map(|s| (s.x, s.y, s.r)).collect();
    assert_eq!(got, vec![(0, 0, 3), (3, 0, 1), (4, 0, 1), (0, 3, 5)]);
}

#[test]
fn empty_block_layout() {
    let layout = block_layout(&vec![]);
    assert_eq!(layout.width, 1);
    let got: Vec<_> = layout.squares.iter().map(|s| (s.x, s.y, s.r)).collect();
    assert_eq!(got, vec![(0, 0, 1)]);
}

#[test]
fn content_extent_is_largest_edge() {
    let squares = vec![
        PlacedSquare { x: 0, y: 0, r: 3 },
        PlacedSquare { x: 3, y: 0, r: 1 },
        PlacedSquare { x: 0, y: 3, r: 2 },
    ];
    assert_eq!(content_extent(&squares), (4, 5));
    assert_eq!(content_extent(&vec![]), (1, 1));
}

#[test]
fn painting_colours_covered_pixels_only() {
    let raw = paint_squares(&vec![
        PixelRect { x0: 1, y0: 2, x1: 3, y1: 4 },
        PixelRect { x0: 570, y0: 570, x1: 1000, y1: 1000 },
    ]);
    assert_eq!(raw.len(), 576 * 576 * 4);
    let px = |x: usize, y: usize| &raw[4 * (576 * y + x)..4 * (576 * y + x) + 4];
    assert_eq!(px(1, 2), &[247, 147, 26, 255]);
    assert_eq!(px(2, 3), &[247, 147, 26, 255]);
    assert_eq!(px(3, 3), &[0, 0, 0, 0]);
    assert_eq!(px(0, 2), &[0, 0, 0, 0]);
    assert_eq!(px(575, 575), &[247, 147, 26, 255]);
    let orange = raw.chunks(4).filter(|p| p[3] == 255).count();
    assert_eq!(orange, 4 + 36);
}

#[test]
fn render_png_encodes_the_raster() {
    let rects = vec![PixelRect { x0: 10, y0: 20, x1: 30, y1: 25 }];
    let png = render_png(&rects).unwrap();
    assert_eq!(&png[..8], &[137, 80, 78, 71, 13, 10, 26, 10]);
    let img = image::load_from_memory(&png).unwrap().to_rgba8();
    assert_eq!(img.width(), 576);
    assert_eq!(img.height(), 576);
    assert_eq!(img.into_raw(), paint_squares(&rects));
}

#[test]
fn render_png_always_succeeds() {
    assert!(render_png(&vec![]).is_ok());
    assert!(render_png(&vec![PixelRect { x0: 0, y0: 0, x1: u32::MAX, y1: u32::MAX }]).is_ok());
}
