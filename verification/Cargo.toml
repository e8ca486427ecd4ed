[package]
name = "plugmem_core"
version = "0.1.0"
edition = "2021"
publish = false

[dependencies]
hashbrown = { version = "0.15", default-features = false }
icu_casemap = { version = "2", features = ["compiled_data"] }
icu_locale_core = "2"
icu_normalizer = { version = "2", features = ["compiled_data", "utf16_iter", "utf8_iter", "write16"] }
icu_properties = { version = "2", features = ["compiled_data"] }
icu_segmenter = { version = "2", features = ["auto", "compiled_data"] }
libm = "0.2"
serde = { version = "1", features = ["derive"] }
thiserror = "2"
unicode-normalization = "0.1"
writeable = "0.6"
xxhash-rust = { version = "0.8", features = ["xxh3"] }
