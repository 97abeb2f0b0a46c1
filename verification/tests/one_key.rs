use i_key_sort::sort::one_key::OneKeySort;

fn test(count: usize) {
    let mut org: Vec<_> = (0..count).rev().collect();
    let mut arr1 = org.clone();
    arr1.sort_by_one_key(true, |&a| a);
    org.sort_unstable();
    assert!(arr1 == org);
}

#[test]
fn one_key_test_0() {
    test(10);
}

#[test]
fn one_key_test_1() {
    test(34);
}

#[test]
fn one_key_test_2() {
    test(1_000);
}

#[test]
fn one_key_test_3() {
    test(5_000);
}

#[test]
fn one_key_test_4() {
    test(100_000);
}

#[test]
fn one_key_test_5() {
    test(1000_000);
}

#[test]
fn test_custom() {
    let mut org = vec![
        54, 53, 52, 51,
        44, 43, 42, 41,
        34, 33, 32, 31,
        24, 23, 22, 21,
        54, 53, 52, 51,
        64, 63, 62, 61,
        74, 73, 72, 71,
        84, 83, 82, 81,
        94, 93, 92, 91,
    ];
    let mut arr1 = org.clone();
    arr1.sort_by_one_key(true, |&a| a);
    org.sort_unstable();
    assert!(arr1 == org);
}
