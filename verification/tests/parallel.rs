use i_key_sort::sort::parallel::slice_one_key::par_sort_by_one_key;
use i_key_sort::sort::parallel::slice_two_keys::par_sort_by_two_keys;
use i_key_sort::sort::parallel::slice_one_key_cmp::par_sort_by_one_key_then_by;
use i_key_sort::sort::parallel::slice_two_keys_cmp::par_sort_by_two_keys_then_by;
use i_key_sort::sort::parallel::cpu_count::{CPUCount, MIN_LEN_PER_TASK};

fn reversed_2d_array(count: usize) -> Vec<(i32, i32)> {
    let mut arr = Vec::with_capacity(count * count);
    for x in (0..count as i32).rev() {
        for y in (0..count as i32).rev() {
            arr.push((x, y))
        }
    }
    arr
}

fn reversed_3d_array(count: usize) -> Vec<(u32, i32, i32)> {
    let mut arr = Vec::with_capacity(count * count * count);
    for i in (0..count as u32).rev() {
        for x in (0..count as i32).rev() {
            for y in (0..count as i32).rev() {
                arr.push((i, x, y))
            }
        }
    }
    arr
}

fn check_two_keys(count: usize) {
    let mut org: Vec<_> = reversed_2d_array(count);
    let mut arr = org.clone();
    par_sort_by_two_keys(&mut arr, 1, |a: &(i32, i32)| a.0, |a: &(i32, i32)| a.1);
    org.sort_unstable_by(|a, b| a.0.cmp(&b.0).then(a.1.cmp(&b.1)));
    assert_eq!(arr, org);
}

fn check_one_key_cmp(count: usize) {
    let mut org: Vec<_> = reversed_2d_array(count);
    let mut arr = org.clone();
    par_sort_by_one_key_then_by(&mut arr, 1, |a: &(i32, i32)| a.0, |a: &(i32, i32), b: &(i32, i32)| a.1.cmp(&b.1));
    org.sort_unstable_by(|a, b| a.0.cmp(&b.0).then(a.1.cmp(&b.1)));
    assert_eq!(arr, org);
}

fn check_two_keys_cmp(count: usize) {
    let mut org: Vec<_> = reversed_3d_array(count);
    let mut arr = org.clone();
    par_sort_by_two_keys_then_by(
        &mut arr,
        1,
        |a: &(u32, i32, i32)| a.0,
        |a: &(u32, i32, i32)| a.1,
        |a: &(u32, i32, i32), b: &(u32, i32, i32)| a.2.cmp(&b.2),
    );
    org.sort_unstable_by(|a, b| a.0.cmp(&b.0).then(a.1.cmp(&b.1)).then(a.2.cmp(&b.2)));
    assert_eq!(arr, org);
}

#[test]
fn par_slice_two_keys_test_0() {
    check_two_keys(2);
}

#[test]
fn par_slice_two_keys_test_1() {
    check_two_keys(10);
}

#[test]
fn par_slice_two_keys_test_2() {
    check_two_keys(30);
}

#[test]
fn par_slice_two_keys_test_3() {
    check_two_keys(100);
}

#[test]
fn par_slice_two_keys_test_4() {
    check_two_keys(300);
}

#[test]
fn par_slice_two_keys_test_5() {
    check_two_keys(1000);
}

#[test]
fn par_slice_one_key_cmp_test_0() {
    check_one_key_cmp(2);
}

#[test]
fn par_slice_one_key_cmp_test_1() {
    check_one_key_cmp(10);
}

#[test]
fn par_slice_one_key_cmp_test_2() {
    check_one_key_cmp(30);
}

#[test]
fn par_slice_one_key_cmp_test_3() {
    check_one_key_cmp(100);
}

#[test]
fn par_slice_one_key_cmp_test_4() {
    check_one_key_cmp(300);
}

#[test]
fn par_slice_one_key_cmp_test_5() {
    check_one_key_cmp(1000);
}

#[test]
fn par_slice_two_keys_cmp_test_0() {
    check_two_keys_cmp(2);
}

#[test]
fn par_slice_two_keys_cmp_test_1() {
    check_two_keys_cmp(5);
}

#[test]
fn par_slice_two_keys_cmp_test_2() {
    check_two_keys_cmp(10);
}

#[test]
fn par_slice_two_keys_cmp_test_3() {
    check_two_keys_cmp(20);
}

#[test]
fn par_slice_two_keys_cmp_test_4() {
    check_two_keys_cmp(40);
}

#[test]
fn par_slice_two_keys_cmp_test_5() {
    check_two_keys_cmp(100);
}

/// A pseudo-random sequence, the same on every run.
fn scrambled(len: usize, modulo: u64) -> Vec<u64> {
    let mut x: u64 = 0x2545_f491_4f6c_dd1d;
    let mut v = Vec::with_capacity(len);
    for _ in 0..len {
        x ^= x << 13;
        x ^= x >> 7;
        x ^= x << 17;
        v.push(x % modulo);
    }
    v
}

#[test]
fn par_sort_by_one_key_many_workers() {
    // four workers and enough elements for each: the presort path is taken
    let len = 4 * MIN_LEN_PER_TASK + 17;
    let org = scrambled(len, 1_000_000);
    let mut arr = org.clone();
    par_sort_by_one_key(&mut arr, 4, |a: &u64| *a);
    let mut expected = org.clone();
    expected.sort_unstable();
    assert_eq!(arr, expected);
}

#[test]
fn par_sort_by_one_key_all_keys_equal() {
    // a flat input comes back unchanged
    let org: Vec<(u8, u32)> = (0..(2 * MIN_LEN_PER_TASK as u32)).map(|i| (7, i)).rev().collect();
    let mut arr = org.clone();
    par_sort_by_one_key(&mut arr, 2, |a: &(u8, u32)| a.0);
    assert_eq!(arr, org);
}

#[test]
fn par_sort_by_two_keys_flat_first_key() {
    // all first keys equal: the second key alone orders
    let org: Vec<(u8, i64)> = scrambled(3 * MIN_LEN_PER_TASK, 5000).into_iter().map(|x| (1, x as i64 - 2500)).collect();
    let mut arr = org.clone();
    par_sort_by_two_keys(&mut arr, 3, |a: &(u8, i64)| a.0, |a: &(u8, i64)| a.1);
    let mut expected = org.clone();
    expected.sort_unstable_by(|a, b| a.1.cmp(&b.1));
    let arr_keys: Vec<i64> = arr.iter().map(|a| a.1).collect();
    let expected_keys: Vec<i64> = expected.iter().map(|a| a.1).collect();
    assert_eq!(arr_keys, expected_keys);
}

#[test]
fn par_sort_by_one_key_then_by_flat_key() {
    // all keys equal: the comparator alone orders
    let org: Vec<(u16, u32)> = scrambled(2 * MIN_LEN_PER_TASK, 1 << 30).into_iter().map(|x| (3, x as u32)).collect();
    let mut arr = org.clone();
    par_sort_by_one_key_then_by(&mut arr, 2, |a: &(u16, u32)| a.0, |a: &(u16, u32), b: &(u16, u32)| a.1.cmp(&b.1));
    let mut expected = org.clone();
    expected.sort_unstable_by(|a, b| a.1.cmp(&b.1));
    assert_eq!(arr, expected);
}

#[test]
fn par_sort_by_two_keys_then_by_many_workers() {
    let len = 2 * MIN_LEN_PER_TASK;
    let org: Vec<(i32, u8, u16)> = scrambled(len, 1 << 40)
        .into_iter()
        .map(|x| ((x % 97) as i32 - 48, ((x >> 8) % 5) as u8, (x >> 16) as u16))
        .collect();
    let mut arr = org.clone();
    par_sort_by_two_keys_then_by(
        &mut arr,
        2,
        |a: &(i32, u8, u16)| a.0,
        |a: &(i32, u8, u16)| a.1,
        |a: &(i32, u8, u16), b: &(i32, u8, u16)| a.2.cmp(&b.2),
    );
    let mut expected = org.clone();
    expected.sort_unstable();
    assert_eq!(arr, expected);
}

#[test]
fn par_sort_empty_and_short() {
    let mut empty: Vec<u32> = Vec::new();
    par_sort_by_one_key(&mut empty, 8, |a: &u32| *a);
    assert!(empty.is_empty());
    let mut short = vec![5u32, 3, 9, 1, 3];
    par_sort_by_one_key(&mut short, 8, |a: &u32| *a);
    assert_eq!(short, vec![1, 3, 3, 5, 9]);
}

#[test]
fn cpu_count_decides_parallel() {
    assert_eq!(CPUCount::should_parallel(0, 4), None);
    assert_eq!(CPUCount::should_parallel(4 * 32_000 - 1, 4), None);
    assert_eq!(CPUCount::should_parallel(4 * 32_000, 4), Some(4));
    assert_eq!(CPUCount::should_parallel(32_000, 0), Some(1));
    assert_eq!(CPUCount::should_parallel(31_999, 1), None);
}
