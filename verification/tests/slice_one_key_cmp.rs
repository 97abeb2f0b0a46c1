use i_key_sort::sort::one_key_cmp::sort_vec_by_one_key_then_by;

fn reversed_2d_array(count: usize) -> Vec<(i32, i32)> {
    let mut arr = Vec::with_capacity(count * count);
    for x in (0..count as i32).rev() {
        for y in (0..count as i32).rev() {
            arr.push((x, y))
        }
    }

    arr
}

fn test(count: usize) {
    let mut org: Vec<_> = reversed_2d_array(count);
    let mut arr = org.clone();
    sort_vec_by_one_key_then_by(&mut arr, &mut Vec::new(), |a: &(i32, i32)| a.0, |a: &(i32, i32), b: &(i32, i32)| a.1.cmp(&b.1));
    org.sort_unstable_by(|a, b| a.0.cmp(&b.0).then(a.1.cmp(&b.1)));
    assert_eq!(arr, org);
}

#[test]
fn slice_one_key_cmp_test_0() {
    test(2);
}

#[test]
fn slice_one_key_cmp_test_1() {
    test(10);
}

#[test]
fn slice_one_key_cmp_test_2() {
    test(30);
}

#[test]
fn slice_one_key_cmp_test_3() {
    test(100);
}

#[test]
fn slice_one_key_cmp_test_4() {
    test(300);
}

#[test]
fn slice_one_key_cmp_test_5() {
    test(1000);
}
