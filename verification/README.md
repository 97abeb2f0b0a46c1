# i_key_sort

A sorting library that combines bin and counting sort, for elements from which
an integer key can be extracted. Every sort is proved with Verus to return a
permutation of its input that is ascending under the requested order.

- `src/sort/key.rs`: the integer key types and key functions.
- `src/sort/bin_layout.rs`, `src/sort/log2.rs`: how keys are mapped to bins.
- `src/sort/spread.rs`: the stable distribution of a range into bins.
- `src/sort/serial/`: the bin sorts (by one key, two keys, and either followed
  by a comparator), recursing into bins until a bin is short or holds one key.
- `src/sort/merge.rs`, `src/sort/order.rs`: merge sort and insertion sort under
  any order, for ties and short ranges.
- `src/sort/parallel/`: the parallel sorts: a presort into parts whose keys do
  not overlap, then the parts sorted on rayon's pool.
- `src/sort/{one_key,two_keys,one_key_cmp,two_keys_cmp,key_sort}.rs`: the
  public traits, implemented for `Vec<T>`.
- `src/layout.rs`, `src/chunks.rs`: a store of bins for a separate
  layout-then-sort pass, and the cutting of laid-out data into chunks.
- `src/sort/stable.rs`: stability: the sorts by one key and by two keys keep
  elements of equal keys in their order, so their result is unique.
- `src/laws.rs`: results that hold of all the sorts together.
- `app/main.rs`: a small program that sorts two kinds of records.

The trusted items are four wrappers over rayon: `par_min_max`, `par_run_jobs`,
`par_sort_parts` and `CPUCount::count`; each states in its doc comment what is
assumed of it.
