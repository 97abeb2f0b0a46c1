use i_key_sort::sort::one_key::OneKeySort;
use i_key_sort::sort::two_keys::TwoKeysSort;
use i_key_sort::sort::one_key_cmp::OneKeyAndCmpSort;
use i_key_sort::sort::two_keys_cmp::TwoKeysAndCmpSort;
use i_key_sort::sort::key_sort::KeySort;
use i_key_sort::sort::parallel::slice_one_key::par_sort_by_one_key;
use i_key_sort::sort::parallel::slice_two_keys_cmp::par_sort_by_two_keys_then_by;

fn scrambled(len: usize, modulo: u64) -> Vec<u64> {
    let mut x: u64 = 0x9e37_79b9_7f4a_7c15;
    let mut v = Vec::with_capacity(len);
    for _ in 0..len {
        x ^= x << 13;
        x ^= x >> 7;
        x ^= x << 17;
        v.push(x % modulo);
    }
    v
}

#[test]
fn sorts_by_one_key_agree_on_keys() {
    // serial, parallel and buffered sorts list the same keys in the same order
    let org: Vec<(i16, u32)> = scrambled(70_000, 1 << 20).into_iter().enumerate().map(|(i, x)| ((x % 300) as i16 - 150, i as u32)).collect();
    let mut serial = org.clone();
    OneKeySort::sort_by_one_key(&mut serial, false, |a: &(i16, u32)| a.0);
    let mut parallel = org.clone();
    par_sort_by_one_key(&mut parallel, 2, |a: &(i16, u32)| a.0);
    let mut buffered = org.clone();
    let mut buf = Vec::new();
    buffered.sort_by_one_key_and_buffer(false, &mut buf, |a: &(i16, u32)| a.0);
    let keys = |v: &Vec<(i16, u32)>| v.iter().map(|a| a.0).collect::<Vec<_>>();
    assert_eq!(keys(&serial), keys(&parallel));
    assert_eq!(keys(&serial), keys(&buffered));
    let mut expected = keys(&org);
    expected.sort();
    assert_eq!(keys(&serial), expected);
}

#[test]
fn sorts_by_two_keys_agree_on_key_pairs() {
    let org: Vec<(u8, i8, u32)> = scrambled(5_000, 1 << 30).into_iter().enumerate().map(|(i, x)| ((x % 7) as u8, ((x >> 3) % 11) as i8 - 5, i as u32)).collect();
    let mut a = org.clone();
    TwoKeysSort::sort_by_two_keys(&mut a, false, |x: &(u8, i8, u32)| x.0, |x: &(u8, i8, u32)| x.1);
    let mut b = org.clone();
    TwoKeysSort::sort_by_two_keys(&mut b, true, |x: &(u8, i8, u32)| x.0, |x: &(u8, i8, u32)| x.1);
    let pairs = |v: &Vec<(u8, i8, u32)>| v.iter().map(|x| (x.0, x.1)).collect::<Vec<_>>();
    assert_eq!(pairs(&a), pairs(&b));
}

#[test]
fn separating_comparator_fixes_the_result() {
    // a comparator that tells every two elements apart leaves one possible result
    let org: Vec<(u32, i32, i32)> = scrambled(80_000, 1 << 40)
        .into_iter()
        .enumerate()
        .map(|(i, x)| ((x % 13) as u32, ((x >> 4) % 17) as i32, i as i32))
        .collect();
    let mut serial = org.clone();
    TwoKeysAndCmpSort::sort_by_two_keys_then_by(&mut serial, false, |x: &(u32, i32, i32)| x.0, |x: &(u32, i32, i32)| x.1, |a: &(u32, i32, i32), b: &(u32, i32, i32)| a.2.cmp(&b.2));
    let mut parallel = org.clone();
    par_sort_by_two_keys_then_by(&mut parallel, 2, |x: &(u32, i32, i32)| x.0, |x: &(u32, i32, i32)| x.1, |a: &(u32, i32, i32), b: &(u32, i32, i32)| a.2.cmp(&b.2));
    let mut expected = org.clone();
    expected.sort();
    assert_eq!(serial, expected);
    assert_eq!(parallel, expected);
}

#[test]
fn one_key_then_comparator_agree() {
    let org: Vec<(i64, u16)> = scrambled(3_000, 1 << 32).into_iter().enumerate().map(|(i, x)| ((x % 5) as i64 - 2, i as u16)).collect();
    let mut a = org.clone();
    OneKeyAndCmpSort::sort_by_one_key_then_by(&mut a, false, |x: &(i64, u16)| x.0, |p: &(i64, u16), q: &(i64, u16)| q.1.cmp(&p.1));
    let mut b = org.clone();
    KeySort::sort_by_one_key_then_by(&mut b, true, |x: &(i64, u16)| x.0, |p: &(i64, u16), q: &(i64, u16)| q.1.cmp(&p.1));
    let mut expected = org.clone();
    expected.sort_by(|p, q| p.0.cmp(&q.0).then(q.1.cmp(&p.1)));
    assert_eq!(a, expected);
    assert_eq!(b, expected);
}

#[test]
fn sorting_keeps_the_elements() {
    let org: Vec<u64> = scrambled(1_000, 50);
    let mut v = org.clone();
    KeySort::sort_by_one_key(&mut v, false, |x: &u64| *x);
    let mut a = org.clone();
    a.sort();
    assert_eq!(v, a);
}

#[test]
fn parallel_flag_and_buffer_do_not_change_the_result() {
    // many equal keys with distinct payloads: the stable result is the only one
    let org: Vec<(u16, u32)> = scrambled(90_000, 1 << 30).into_iter().enumerate().map(|(i, x)| ((x % 500) as u16, i as u32)).collect();
    let mut serial = org.clone();
    OneKeySort::sort_by_one_key(&mut serial, false, |a: &(u16, u32)| a.0);
    let mut parallel = org.clone();
    OneKeySort::sort_by_one_key(&mut parallel, true, |a: &(u16, u32)| a.0);
    let mut on_workers = org.clone();
    par_sort_by_one_key(&mut on_workers, 3, |a: &(u16, u32)| a.0);
    let mut reused = org.clone();
    let mut garbage: Vec<(u16, u32)> = vec![(7, 7); 123];
    reused.sort_by_one_key_and_buffer(false, &mut garbage, |a: &(u16, u32)| a.0);
    let mut expected = org.clone();
    expected.sort_by_key(|a| a.0);
    assert_eq!(serial, expected);
    assert_eq!(parallel, expected);
    assert_eq!(on_workers, expected);
    assert_eq!(reused, expected);
}

#[test]
fn two_keys_parallel_flag_does_not_change_the_result() {
    let org: Vec<(u8, i16, u32)> = scrambled(80_000, 1 << 40)
        .into_iter()
        .enumerate()
        .map(|(i, x)| ((x % 11) as u8, ((x >> 5) % 13) as i16 - 6, i as u32))
        .collect();
    let mut serial = org.clone();
    TwoKeysSort::sort_by_two_keys(&mut serial, false, |x: &(u8, i16, u32)| x.0, |x: &(u8, i16, u32)| x.1);
    let mut parallel = org.clone();
    TwoKeysSort::sort_by_two_keys(&mut parallel, true, |x: &(u8, i16, u32)| x.0, |x: &(u8, i16, u32)| x.1);
    let mut expected = org.clone();
    expected.sort_by_key(|x| (x.0, x.1));
    assert_eq!(serial, expected);
    assert_eq!(parallel, expected);
}
