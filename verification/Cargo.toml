[package]
name = "alyze"
version = "0.1.0"
edition = "2021"
publish = false

[dependencies]
ahash = "*"
frostem = "*"
icu_properties = "2"
tpuf_icu_properties_211 = "*"
parquet = { version = "*", default-features = false, features = ["snap"] }
ureq = "*"
tempfile = "*"
