pub mod one_key;
pub mod two_keys;
pub mod one_key_then;
pub mod two_keys_then;
