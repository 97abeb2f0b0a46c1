use i_key_sort::layout::BinStore;
use rand::Rng;
use std::cmp::Ordering::Greater;

#[test]
fn layout_test_0() {
    let array = vec![8, 3, 2, 6, 2, 1];
    let &min = array.iter().min().unwrap();
    let &max = array.iter().max().unwrap();
    let count = array.len();

    let mut store = BinStore::new(min, max, count).unwrap();
    store.layout_bins(&array, |&x: &i32| x);

    let bin_sorted = store.into_sorted_by_bins_vec(count, array, |&x: &i32| x, |a: &i32, b: &i32| a.cmp(b));

    assert_eq!(bin_sorted.len(), count);
    for w in bin_sorted.windows(2) {
        assert_ne!(w[0].cmp(&w[1]), Greater);
    }
}

#[test]
fn test_random_bin_sort() {
    const COUNT: usize = 1000;
    let mut rng = rand::rng();

    for _ in 0..100 {
        let array: Vec<i32> = (0..COUNT).map(|_| rng.random_range(0..100)).collect();

        let min = *array.iter().min().unwrap();
        let max = *array.iter().max().unwrap();

        let mut store = if let Some(store) = BinStore::new(min, max, COUNT) {
            store
        } else {
            continue;
        };
        store.layout_bins(&array, |&x: &i32| x);

        let sorted = store.into_sorted_by_bins_vec(COUNT, array, |&x: &i32| x, |a: &i32, b: &i32| a.cmp(b));

        assert_eq!(sorted.len(), COUNT);

        for w in sorted.windows(2) {
            assert_ne!(w[0].cmp(&w[1]), Greater);
        }
    }
}
