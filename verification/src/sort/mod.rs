pub mod key;
pub mod log2;
pub mod bin_layout;
pub mod order;
pub mod spread;
pub mod serial;
pub mod merge;
pub mod one_key;
pub mod compare;
pub mod one_key_cmp;
pub mod two_keys;
pub mod two_keys_cmp;
pub mod key_sort;
pub mod parallel;
pub mod stable;
