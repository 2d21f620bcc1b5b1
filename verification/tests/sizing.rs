use bitmap_renderer::sizing::{block_width, checked_total, total_area, tx_size_by_value, tx_sizes};

#[test]
fn small_values_get_the_smallest_square() {
    assert_eq!(tx_size_by_value(0), 1);
    assert_eq!(tx_size_by_value(1), 1);
    assert_eq!(tx_size_by_value(100_000), 1);
    assert_eq!(tx_size_by_value(100_001), 1);
    assert_eq!(tx_size_by_value(1_000_000), 1);
}

#[test]
fn size_is_ceil_log10_minus_five() {
    assert_eq!(tx_size_by_value(1_000_001), 2);
    assert_eq!(tx_size_by_value(10_000_000), 2);
    assert_eq!(tx_size_by_value(10_000_001), 3);
    assert_eq!(tx_size_by_value(100_000_000), 3);
    assert_eq!(tx_size_by_value(5_000_000_000), 5);
    assert_eq!(tx_size_by_value(2_100_000_000_000_000), 11);
    assert_eq!(tx_size_by_value(u64::MAX), 15);
}

#[test]
fn size_grows_with_value() {
    let mut last = 0;
    let mut v: u64 = 1;
    for _ in 0..19 {
        let s = tx_size_by_value(v);
        assert!(s >= last);
        last = s;
        v *= 10;
    }
}

#[test]
fn tx_sizes_count_zero_as_one_sat() {
    let sizes = tx_sizes(&vec![0, 1, 50_000_000, 1_000_000_000_000]);
    assert_eq!(sizes, vec![1, 1, 3, 7]);
}

#[test]
fn checked_total_sums_or_reports_overflow() {
    assert_eq!(checked_total(&vec![]), Some(0));
    assert_eq!(checked_total(&vec![1, 2, 3]), Some(6));
    assert_eq!(checked_total(&vec![u64::MAX, 0]), Some(u64::MAX));
    assert_eq!(checked_total(&vec![u64::MAX, 1]), None);
}

#[test]
fn total_area_sums_squares() {
    assert_eq!(total_area(&vec![]), 0);
    assert_eq!(total_area(&vec![1, 2, 3]), 14);
}

#[test]
fn block_width_is_ceil_sqrt_at_least_one() {
    assert_eq!(block_width(0), 1);
    assert_eq!(block_width(1), 1);
    assert_eq!(block_width(2), 2);
    assert_eq!(block_width(4), 2);
    assert_eq!(block_width(5), 3);
    assert_eq!(block_width(14), 4);
    assert_eq!(block_width(16), 4);
    assert_eq!(block_width(17), 5);
    assert_eq!(block_width(usize::MAX), 1 << (usize::BITS / 2));
}

#[test]
fn total_ignores_output_order_and_zero_outputs() {
    let a = checked_total(&vec![5, 0, 1_000_000, 7]);
    let b = checked_total(&vec![7, 1_000_000, 5]);
    let c = checked_total(&vec![0, 7, 0, 5, 1_000_000, 0]);
    assert_eq!(a, Some(1_000_012));
    assert_eq!(a, b);
    assert_eq!(a, c);
}
