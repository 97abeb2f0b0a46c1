[package]
name = "i_key_sort"
version = "0.1.0"
edition = "2021"
publish = false

[dependencies]
rayon = "1"

[dev-dependencies]
rand = "0.9"
