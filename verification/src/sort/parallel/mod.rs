pub mod cpu_count;
pub mod fragmentation;
pub mod presort;
pub mod par_min_max;
pub mod parts;
pub mod slice_one_key;
pub mod part_sort;
pub mod slice_two_keys;
pub mod slice_one_key_cmp;
pub mod slice_two_keys_cmp;
pub mod spread_jobs;
