use i_key_sort::sort::parallel::presort::spread_fragments;
use i_key_sort::chunks::ChunksByBin;
use i_key_sort::layout::{Bin, BinStore};
use i_key_sort::sort::bin_layout::{BinLayout, MAX_BINS_COUNT};
use i_key_sort::sort::parallel::fragmentation::{fragment_by_count, fragment_by_marks};
use i_key_sort::sort::log2::{ilog2_floor_u64, ilog2_usize};

#[test]
fn fragment_by_count_values() {
    assert_eq!(fragment_by_count(10, 3), vec![(0, 4), (4, 8), (8, 10)]);
    assert_eq!(fragment_by_count(2, 4), vec![(0, 1), (1, 2)]);
    assert_eq!(fragment_by_count(0, 4), vec![(0, 0)]);
    assert_eq!(fragment_by_count(9, 3), vec![(0, 3), (3, 6), (6, 9)]);
}

#[test]
fn fragment_by_marks_values() {
    assert_eq!(fragment_by_marks(10, &vec![3, 7]), vec![(0, 3), (3, 7), (7, 10)]);
    assert_eq!(fragment_by_marks(10, &vec![3, 10]), vec![(0, 3), (3, 10)]);
    assert_eq!(fragment_by_marks(5, &vec![]), vec![(0, 5)]);
}

#[test]
fn bin_layout_index_and_count() {
    let layout = BinLayout::<i32>::new(-10, 1000, 4);
    // 1011 values, at most 4 bins: each bin 2^(10 - 2) = 256 values wide
    assert_eq!(layout.power, 8);
    assert_eq!(layout.index(-10), 0);
    assert_eq!(layout.index(245), 0);
    assert_eq!(layout.index(246), 1);
    assert_eq!(layout.count(), 4);
    // a key past the largest still gets its bin
    assert_eq!(layout.index(1100), 4);
    assert!(!layout.bin_width_is_one());
    let narrow = BinLayout::<u8>::new(3, 5, MAX_BINS_COUNT);
    assert!(narrow.bin_width_is_one());
    assert_eq!(narrow.count(), 3);
    assert_eq!(narrow.index(5), 2);
}

#[test]
fn bin_layout_with_keys() {
    let v = vec![4i64, -3, 9, 0];
    let layout = BinLayout::with_keys(&v, |x: &i64| *x).unwrap();
    assert_eq!(layout.min_key, -3);
    assert_eq!(layout.max_key, 9);
    assert_eq!(layout.count(), 13);
    let flat = vec![7u32, 7, 7];
    assert!(BinLayout::with_keys(&flat, |x: &u32| *x).is_none());
    let empty: Vec<u32> = Vec::new();
    assert!(BinLayout::with_keys(&empty, |x: &u32| *x).is_none());
}

#[test]
fn log2_values() {
    assert_eq!(ilog2_floor_u64(1), 0);
    assert_eq!(ilog2_floor_u64(1023), 9);
    assert_eq!(ilog2_floor_u64(1024), 10);
    assert_eq!(ilog2_floor_u64(u64::MAX), 63);
    assert_eq!(ilog2_usize(256), 8);
}

#[test]
fn bin_store_needs_a_key_range() {
    assert!(BinStore::new(5i32, 5i32, 10).is_none());
    assert!(BinStore::new(6i32, 5i32, 10).is_none());
    assert!(BinStore::new(1i32, 5i32, 10).is_some());
}

#[test]
fn chunks_merge_small_bins() {
    // 128 elements: a chunk must hold more than 2
    let bins = vec![
        Bin { offset: 0, data: 1 },
        Bin { offset: 1, data: 2 },
        Bin { offset: 2, data: 10 },
        Bin { offset: 10, data: 11 },
        Bin { offset: 11, data: 128 },
    ];
    let mut chunks = ChunksByBin::new(128, bins);
    assert_eq!(chunks.next(), Some((0, 10)));
    assert_eq!(chunks.next(), Some((10, 128)));
    assert_eq!(chunks.next(), None);
}

#[test]
fn chunks_rest_of_data() {
    let bins = vec![Bin { offset: 0, data: 1 }, Bin { offset: 1, data: 2 }];
    let mut chunks = ChunksByBin::new(640, bins);
    // no bin makes a chunk longer than 10: the rest of the data is one chunk
    assert_eq!(chunks.next(), Some((0, 640)));
    assert_eq!(chunks.next(), None);
}

#[test]
fn bin_layout_single_bin() {
    let layout = BinLayout::<i32>::new(0, 1000, 1);
    assert_eq!(layout.count(), 1);
    assert_eq!(layout.index(1000), 0);
    assert!(!layout.bin_width_is_one());
}

#[test]
fn bin_store_accepts_keys_in_the_last_bin() {
    // keys 0..=9 with at most 2 bins: bins 8 values wide; 12 lies past the
    // largest key but in the last bin
    let mut store = BinStore::new(0i32, 9i32, 2).unwrap();
    let items = vec![12i32, 0, 9, 3];
    store.layout_bins(&items, |&x: &i32| x);
    assert_eq!(store.bins[0].offset, 0);
    assert_eq!(store.bins[1].offset, 2);
}

#[test]
fn par_spread_groups_ranges_by_bin() {
    let layout = BinLayout::<i32>::new(0, 3, 4);
    let src = vec![3i32, 1, 1, 0];
    let frags = vec![(0usize, 2usize), (2, 4)];
    let mut buf = vec![0i32; 4];
    let (groups, _) = layout.par_spread(&frags, &src, &mut buf, |&x: &i32| x);
    assert_eq!(groups, vec![vec![(2, 3)], vec![(0, 1), (3, 4)], vec![(1, 2)]]);
    assert_eq!(buf, vec![1, 3, 0, 1]);

    let src = vec![0i32, 0, 0, 0, 3, 1, 3];
    let frags = vec![(0usize, 4usize), (4, 7)];
    let mut buf = vec![0i32; 7];
    let ids = spread_fragments(&layout, |&x: &i32| x, &src, &mut buf, &frags);
    let listed: Vec<(usize, usize, usize)> = ids.iter().map(|r| (r.index, r.start, r.end)).collect();
    assert_eq!(listed, vec![(0, 0, 4), (1, 4, 5), (3, 5, 7)]);
    assert_eq!(buf, vec![0, 0, 0, 0, 1, 3, 3]);
}

#[test]
fn chunks_cover_contiguous_bins() {
    // contiguous bins over 256 elements: every chunk but the last is longer than 4
    let ends = [3usize, 4, 9, 10, 11, 40, 41, 256];
    let mut bins = Vec::new();
    let mut start = 0;
    for &e in ends.iter() {
        bins.push(Bin { offset: start, data: e });
        start = e;
    }
    let mut chunks = ChunksByBin::new(256, bins);
    let mut got = Vec::new();
    while let Some(c) = chunks.next() {
        got.push(c);
    }
    assert_eq!(got, vec![(0, 9), (9, 40), (40, 256)]);
}

#[test]
fn bin_layout_many_bins() {
    // up to 1024 bins: 100001 values need bins 2^(17 - 10) = 128 wide
    let layout = BinLayout::<u32>::new(0, 100_000, 1024);
    assert_eq!(layout.power, 7);
    assert_eq!(layout.count(), 782);
    assert_eq!(layout.index(100_000), 781);
}
