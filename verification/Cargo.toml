[package]
name = "mp4_json"
version = "0.1.0"
edition = "2021"
publish = false

[dependencies]
fnv = "=1.0.7"
bencher = "=0.1.5"
jemallocator = "=0.5.4"

[dev-dependencies]
combine = "=4.6.9"
