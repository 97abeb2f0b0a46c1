use i_key_sort::sort::one_key::OneKeySort;
use i_key_sort::sort::one_key_cmp::OneKeyAndCmpSort;
use i_key_sort::sort::two_keys::TwoKeysSort;
use i_key_sort::sort::two_keys_cmp::TwoKeysAndCmpSort;

#[test]
fn readme_sort_by_a_single_key() {
    let mut v = vec![5, 1, 4, 1, 3, 2];
    v.sort_by_one_key(true, |&x: &i32| x);
    assert_eq!(v, [1, 1, 2, 3, 4, 5]);
}

#[test]
fn readme_sort_by_a_key_then_by_a_comparator() {
    let mut v = vec![("b", 2), ("a", 3), ("a", 1)];
    v.sort_by_one_key_then_by(true, |x: &(&str, i32)| x.0.as_bytes()[0], |a: &(&str, i32), b: &(&str, i32)| a.1.cmp(&b.1));
    assert_eq!(v, [("a", 1), ("a", 3), ("b", 2)]);
}

#[test]
fn readme_sort_by_two_keys() {
    let mut v = vec![(2, 1), (1, 2), (1, 0)];
    v.sort_by_two_keys(true, |x: &(i32, i32)| x.0, |x: &(i32, i32)| x.1);
    assert_eq!(v, [(1, 0), (1, 2), (2, 1)]);
}

#[test]
fn readme_two_keys_then_comparator() {
    let mut v = vec![(1u32, 0i32, 9i32), (1, 0, 3), (1, 1, 1)];
    v.sort_by_two_keys_then_by(true, |x: &(u32, i32, i32)| x.0, |x: &(u32, i32, i32)| x.1, |a: &(u32, i32, i32), b: &(u32, i32, i32)| a.2.cmp(&b.2));
    assert_eq!(v, [(1, 0, 3), (1, 0, 9), (1, 1, 1)]);
}

#[test]
fn readme_reusing_a_buffer() {
    let mut buf: Vec<i32> = Vec::new();
    let mut v = vec![3, 2, 1];
    v.sort_by_one_key_and_buffer(true, &mut buf, |&x: &i32| x);
    assert_eq!(v, [1, 2, 3]);
}

#[test]
fn serial_buffer_grows_to_input_length() {
    // a serial sort of a long input leaves the buffer as long as the input
    let mut buf: Vec<u16> = Vec::new();
    let mut v: Vec<u16> = (0..200u16).rev().collect();
    v.sort_by_one_key_and_buffer(false, &mut buf, |&x: &u16| x);
    assert_eq!(v, (0..200u16).collect::<Vec<_>>());
    assert_eq!(buf.len(), 200);
    // a short one leaves it as it was
    let mut short = vec![2u16, 1];
    short.sort_by_one_key_and_buffer(false, &mut buf, |&x: &u16| x);
    assert_eq!(short, vec![1, 2]);
    assert_eq!(buf.len(), 200);
    // a parallel one does not touch it
    let mut long: Vec<u16> = (0..300u16).rev().collect();
    let before = buf.clone();
    long.sort_by_one_key_and_buffer(true, &mut buf, |&x: &u16| x);
    assert_eq!(buf, before);
}
