[package]
name = "dm_seq"
version = "0.1.0"
edition = "2021"
publish = false

[dependencies]
fastrand = "=2.5.0"
wmidi = "=3.1.0"
lv2 = { version = "=0.6.0", features = ["wmidi", "lv2-time"] }
