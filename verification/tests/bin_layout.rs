use i_key_sort::sort::bin_layout::{BinLayout, MAX_BINS_COUNT};
use i_key_sort::sort::log2::Log2;

#[test]
fn bin_layout_test_0() {
    let layout = BinLayout::<i32>::new(0i32, 3i32, MAX_BINS_COUNT);
    assert_eq!(layout.power, 0);
}

#[test]
fn bin_layout_test_1() {
    let layout = BinLayout::<i32>::new(0, 255, MAX_BINS_COUNT);

    assert_eq!(layout.power, 0);
}

#[test]
fn bin_layout_test_2() {
    let layout = BinLayout::<i32>::new(0, 256, MAX_BINS_COUNT);

    assert_eq!(layout.power, 1);
}

#[test]
fn test_log2_0() {
    assert_eq!(1usize.ilog2_ceil(), 0);
    assert_eq!(2usize.ilog2_ceil(), 1);
    assert_eq!(3usize.ilog2_ceil(), 2);
    assert_eq!(4usize.ilog2_ceil(), 2);
    assert_eq!(5usize.ilog2_ceil(), 3);
}

#[test]
fn log2_test_0() {
    assert_eq!(1usize.ilog2_ceil(), 0);
    assert_eq!(2usize.ilog2_ceil(), 1);
    assert_eq!(3usize.ilog2_ceil(), 2);
    assert_eq!(4usize.ilog2_ceil(), 2);
    assert_eq!(5usize.ilog2_ceil(), 3);
}
