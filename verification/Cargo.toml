[package]
name = "norflash_map"
version = "0.1.0"
edition = "2021"
publish = false

[dependencies]
rand = "0.8"
rand_pcg = "0.3"
libfuzzer-sys = { version = "0.4", features = ["arbitrary-derive"] }
