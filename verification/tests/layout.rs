use bitmap_renderer::geometry::PlacedSquare;
use bitmap_renderer::layout::{layout_squares, MondrianLayout};

fn sq(s: &PlacedSquare) -> (usize, usize, usize) {
    (s.x, s.y, s.r)
}

fn overlap(a: &PlacedSquare, b: &PlacedSquare) -> bool {
    a.r > 0 && b.r > 0 && a.x < b.x + b.r && b.x < a.x + a.r && a.y < b.y + b.r && b.y < a.y + a.r
}

#[test]
fn new_layout_is_empty() {
    let layout = MondrianLayout::new(7);
    assert_eq!(layout.width, 7);
    assert!(layout.rows.is_empty());
    assert!(!layout.row_exists(0));
}

#[test]
fn add_row_appends_empty_rows() {
    let mut layout = MondrianLayout::new(3);
    assert_eq!(layout.add_row(), 0);
    assert_eq!(layout.add_row(), 1);
    assert!(layout.row_exists(1));
    assert!(!layout.row_exists(2));
    assert!(layout.rows[1].slots.is_empty());
}

#[test]
fn place_fills_rows_first_fit() {
    let mut layout = MondrianLayout::new(4);
    assert_eq!(sq(&layout.place(2)), (0, 0, 2));
    assert_eq!(sq(&layout.place(2)), (2, 0, 2));
    assert_eq!(sq(&layout.place(1)), (0, 2, 1));
    assert_eq!(sq(&layout.place(1)), (1, 2, 1));
}

#[test]
fn place_leaves_free_slots_beside_a_square() {
    let mut layout = MondrianLayout::new(4);
    layout.place(2);
    let row0: Vec<_> = layout.rows[0].slots.iter().map(|s| (s.x, s.y, s.r)).collect();
    let row1: Vec<_> = layout.rows[1].slots.iter().map(|s| (s.x, s.y, s.r)).collect();
    assert_eq!(row0, vec![(2, 0, 2)]);
    assert_eq!(row1, vec![(2, 1, 2)]);
}

#[test]
fn small_square_goes_into_gap() {
    let mut layout = MondrianLayout::new(5);
    assert_eq!(sq(&layout.place(3)), (0, 0, 3));
    assert_eq!(sq(&layout.place(1)), (3, 0, 1));
    assert_eq!(sq(&layout.place(1)), (4, 0, 1));
    assert_eq!(sq(&layout.place(2)), (3, 1, 2));
}

#[test]
fn square_wider_than_layout_gets_new_row() {
    let mut layout = MondrianLayout::new(2);
    assert_eq!(sq(&layout.place(3)), (0, 0, 3));
    assert_eq!(layout.rows.len(), 3);
    assert_eq!(sq(&layout.place(1)), (0, 3, 1));
}

#[test]
fn fill_slot_returns_the_square() {
    let mut layout = MondrianLayout::new(6);
    let y = layout.add_row();
    layout.rows[y].add(bitmap_renderer::row::Slot { x: 0, y, r: 6 });
    assert_eq!(sq(&layout.fill_slot(0, 0, 6, 4)), (0, 0, 4));
    assert_eq!(layout.rows.len(), 4);
}

#[test]
fn empty_block_gets_one_unit_square() {
    let squares = layout_squares(&vec![], 1);
    let got: Vec<_> = squares.iter().map(sq).collect();
    assert_eq!(got, vec![(0, 0, 1)]);
}

#[test]
fn packed_squares_never_overlap() {
    let sizes: Vec<usize> = (0..200).map(|i| [1, 3, 2, 1, 5, 1, 2, 4, 1, 1][i % 10]).collect();
    let area: usize = sizes.iter().map(|s| s * s).sum();
    let width = bitmap_renderer::sizing::block_width(area);
    let squares = layout_squares(&sizes, width);
    assert_eq!(squares.len(), sizes.len());
    for (i, s) in squares.iter().enumerate() {
        assert_eq!(s.r, sizes[i]);
        assert!(s.x + s.r <= width);
        for t in squares.iter().skip(i + 1) {
            assert!(!overlap(s, t));
        }
    }
}
