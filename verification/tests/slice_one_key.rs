use i_key_sort::sort::serial::one_key::sort_vec_by_one_key;

fn test(count: usize) {
    let mut org: Vec<_> = (0..count).rev().collect();
    let mut arr = org.clone();
    sort_vec_by_one_key(&mut arr, &mut Vec::new(), |&a: &usize| a);
    org.sort_unstable();
    assert_eq!(arr, org);
}

#[test]
fn slice_one_key_test_0() {
    test(10);
}

#[test]
fn slice_one_key_test_1() {
    test(100);
}

#[test]
fn slice_one_key_test_2() {
    test(1_000);
}

#[test]
fn slice_one_key_test_3() {
    test(10_000);
}

#[test]
fn slice_one_key_test_4() {
    test(100_000);
}

#[test]
fn slice_one_key_test_5() {
    test(1000_000);
}
