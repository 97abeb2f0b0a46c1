use i_key_sort::sort::serial::two_keys::sort_vec_by_two_keys;

fn reversed_2d_array(count: usize) -> Vec<(i32, i32)> {
    let mut arr = Vec::with_capacity(count * count);
    for x in (0..count as i32).rev() {
        for y in (0..count as i32).rev() {
            arr.push((x, y))
        }
    }

    arr
}

fn check(count: usize) {
    let mut org: Vec<_> = reversed_2d_array(count);
    let mut arr = org.clone();
    sort_vec_by_two_keys(&mut arr, &mut Vec::new(), |a: &(i32, i32)| a.0, |a: &(i32, i32)| a.1);
    org.sort_unstable_by(|a, b| a.0.cmp(&b.0).then(a.1.cmp(&b.1)));
    assert_eq!(arr, org);
}

#[test]
fn slice_two_keys_test_0() {
    check(2);
}

#[test]
fn slice_two_keys_test_1() {
    check(100_u64.isqrt() as usize);
}

#[test]
fn slice_two_keys_test_2() {
    check(1000_u64.isqrt() as usize);
}

#[test]
fn slice_two_keys_test_3() {
    check(10_000_u64.isqrt() as usize);
}

#[test]
fn slice_two_keys_test_4() {
    check(100_000_u64.isqrt() as usize);
}

#[test]
fn slice_two_keys_test_5() {
    check(1000_000_u64.isqrt() as usize);
}
