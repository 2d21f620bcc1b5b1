use bitmap_renderer::row::{MondrianRow, Slot};

fn xs(row: &MondrianRow) -> Vec<(usize, usize, usize)> {
    row.slots.iter().map(|s| (s.x, s.y, s.r)).collect()
}

#[test]
fn add_keeps_slots_ordered_by_column() {
    let mut row = MondrianRow::new();
    row.add(Slot { x: 5, y: 0, r: 2 });
    row.add(Slot { x: 1, y: 0, r: 3 });
    row.add(Slot { x: 9, y: 0, r: 1 });
    row.add(Slot { x: 3, y: 0, r: 1 });
    assert_eq!(xs(&row), vec![(1, 0, 3), (3, 0, 1), (5, 0, 2), (9, 0, 1)]);
}

#[test]
fn add_ignores_empty_slots() {
    let mut row = MondrianRow::new();
    row.add(Slot { x: 5, y: 0, r: 0 });
    assert!(row.slots.is_empty());
}

#[test]
fn add_at_taken_column_keeps_larger_side() {
    let mut row = MondrianRow::new();
    row.add(Slot { x: 4, y: 0, r: 2 });
    row.add(Slot { x: 4, y: 0, r: 1 });
    assert_eq!(xs(&row), vec![(4, 0, 2)]);
    row.add(Slot { x: 4, y: 0, r: 6 });
    assert_eq!(xs(&row), vec![(4, 0, 6)]);
}

#[test]
fn find_has_and_remove() {
    let mut row = MondrianRow::new();
    row.add(Slot { x: 2, y: 1, r: 2 });
    row.add(Slot { x: 7, y: 1, r: 1 });
    assert_eq!(row.find_idx(7), Some(1));
    assert_eq!(row.find_idx(3), None);
    assert!(row.has(2));
    assert!(!row.has(3));
    row.remove(2);
    assert_eq!(xs(&row), vec![(7, 1, 1)]);
    row.remove(3);
    assert_eq!(xs(&row), vec![(7, 1, 1)]);
}

#[test]
fn remove_undoes_add_of_new_column() {
    let mut row = MondrianRow::new();
    row.add(Slot { x: 2, y: 0, r: 2 });
    row.add(Slot { x: 8, y: 0, r: 1 });
    let before = xs(&row);
    row.add(Slot { x: 5, y: 0, r: 3 });
    row.remove(5);
    assert_eq!(xs(&row), before);
}

#[test]
fn adding_twice_is_adding_once() {
    let mut once = MondrianRow::new();
    once.add(Slot { x: 3, y: 2, r: 4 });
    once.add(Slot { x: 6, y: 2, r: 1 });
    let mut twice = MondrianRow::new();
    twice.add(Slot { x: 3, y: 2, r: 4 });
    twice.add(Slot { x: 6, y: 2, r: 1 });
    twice.add(Slot { x: 6, y: 2, r: 1 });
    assert_eq!(xs(&once), xs(&twice));
}
