[package]
name = "snip"
version = "0.1.0"
edition = "2021"
publish = false

[dependencies]
chrono = "0.4"
clap = "4"
colored = "2"
rusqlite = { version = "0.31", features = ["blob", "bundled"] }
rust-stemmers = "1.2"
unicode-segmentation = "1"
uuid = { version = "1", features = ["v4"] }
